//! The iterative flexible-space distribution algorithm.
//!
//! Given each child's natural main-axis size and its signed capacity to
//! grow or shrink (probed size minus natural size), leftover main-axis
//! space is distributed in rounds: each round divides the remaining
//! leftover among the children that still have non-negligible capacity,
//! clamping each child's take to its remaining capacity. A child that
//! exhausts its capacity drops out of later rounds, so remaining leftover
//! is redistributed among the rest. Shares use integer countdown division
//! (the first of `k` remaining flexible children takes `leftover / k`),
//! so a full round with no clamping distributes the leftover exactly.

use vstd::prelude::*;

use crate::geom::{dim_ok, EPS, MAX_DIM};

verus! {

/// Whether a capacity still counts as flexible in the given direction.
pub open spec fn is_flex(cap: i64, grow: bool) -> bool {
    if grow {
        cap > EPS
    } else {
        cap < -EPS
    }
}

/// How many capacities are still flexible in the given direction.
pub open spec fn flex_count(caps: Seq<i64>, grow: bool) -> int
    decreases caps.len(),
{
    if caps.len() == 0 {
        0
    } else {
        (if is_flex(caps[0], grow) {
            1int
        } else {
            0int
        }) + flex_count(caps.drop_first(), grow)
    }
}

/// The flexible count is between zero and the sequence length.
pub proof fn lemma_flex_count_bounds(caps: Seq<i64>, grow: bool)
    ensures
        0 <= flex_count(caps, grow) <= caps.len(),
    decreases caps.len(),
{
    if caps.len() > 0 {
        lemma_flex_count_bounds(caps.drop_first(), grow);
    }
}

/// An equal share, rounded toward zero as the executable division does.
pub open spec fn spec_share(avail: int, k: int) -> int {
    if avail >= 0 {
        avail / k
    } else {
        -((-avail) / k)
    }
}

/// One distribution round over the children, head first. Each flexible
/// child takes `share = leftover / remaining-flexible-count`, clamped to
/// its capacity; its take is deducted from its capacity and from the
/// leftover. Returns the updated sizes, updated capacities, and leftover.
pub open spec fn spec_round(sizes: Seq<i64>, caps: Seq<i64>, avail: int, grow: bool) -> (
    Seq<i64>,
    Seq<i64>,
    int,
)
    decreases sizes.len(),
{
    if sizes.len() == 0 || caps.len() != sizes.len() {
        (sizes, caps, avail)
    } else if is_flex(caps[0], grow) {
        let k = flex_count(caps, grow);
        let share = spec_share(avail, k);
        let change = if grow {
            if (caps[0] as int) < share {
                caps[0] as int
            } else {
                share
            }
        } else {
            if (caps[0] as int) > share {
                caps[0] as int
            } else {
                share
            }
        };
        let rest = spec_round(sizes.drop_first(), caps.drop_first(), avail - change, grow);
        (
            seq![(sizes[0] + change) as i64] + rest.0,
            seq![(caps[0] - change) as i64] + rest.1,
            rest.2,
        )
    } else {
        let rest = spec_round(sizes.drop_first(), caps.drop_first(), avail, grow);
        (seq![sizes[0]] + rest.0, seq![caps[0]] + rest.1, rest.2)
    }
}

/// The distribution fixed point: run rounds until the leftover is within
/// epsilon of zero, no child retains capacity, or the fuel runs out.
pub open spec fn spec_distribute(sizes: Seq<i64>, caps: Seq<i64>, avail: int, fuel: nat) -> (
    Seq<i64>,
    Seq<i64>,
    int,
)
    decreases fuel,
{
    if fuel == 0 || (-EPS <= avail && avail <= EPS) || flex_count(caps, avail > 0) == 0 {
        (sizes, caps, avail)
    } else {
        let r = spec_round(sizes, caps, avail, avail > 0);
        spec_distribute(r.0, r.1, r.2, (fuel - 1) as nat)
    }
}

/// Sum of a sequence of lengths, as a mathematical integer.
pub open spec fn seq_isum(s: Seq<i64>) -> int
    decreases s.len(),
{
    if s.len() == 0 {
        0
    } else {
        s[0] + seq_isum(s.drop_first())
    }
}

/// Prepending an element adds it to the sum.
pub proof fn lemma_isum_cons(x: i64, s: Seq<i64>)
    ensures
        seq_isum(seq![x] + s) == x + seq_isum(s),
{
    assert((seq![x] + s).drop_first() =~= s);
    assert((seq![x] + s)[0] == x);
}

/// Entry-wise validity used through the distribution: every size is a
/// valid dimension and stays one even after taking its whole capacity.
pub open spec fn entries_ok(sizes: Seq<i64>, caps: Seq<i64>) -> bool {
    sizes.len() == caps.len() && (forall|j: int|
        0 <= j < sizes.len() ==> dim_ok(#[trigger] sizes[j] as int) && dim_ok(
            sizes[j] + caps[j],
        ))
}

/// What one round guarantees: lengths are preserved, each child moves
/// only in the leftover's direction and never past its capacity, the
/// total movement equals the leftover consumed, and the remaining
/// leftover keeps its sign without growing.
pub proof fn lemma_round_props(sizes: Seq<i64>, caps: Seq<i64>, avail: int, grow: bool)
    requires
        entries_ok(sizes, caps),
        grow ==> 0 <= avail,
        !grow ==> avail <= 0,
    ensures
        ({
            let r = spec_round(sizes, caps, avail, grow);
            &&& r.0.len() == sizes.len()
            &&& r.1.len() == sizes.len()
            &&& forall|j: int|
                0 <= j < sizes.len() ==> #[trigger] (r.0[j] + r.1[j]) == sizes[j] + caps[j]
            &&& forall|j: int|
                0 <= j < sizes.len() ==> (if grow {
                    sizes[j] <= #[trigger] r.0[j] && (caps[j] >= 0 ==> r.0[j] <= sizes[j]
                        + caps[j]) && (caps[j] < 0 ==> r.0[j] == sizes[j])
                } else {
                    r.0[j] <= sizes[j] && (caps[j] <= 0 ==> sizes[j] + caps[j] <= r.0[j]) && (
                    caps[j] > 0 ==> r.0[j] == sizes[j])
                })
            &&& entries_ok(r.0, r.1)
            &&& seq_isum(r.0) == seq_isum(sizes) + (avail - r.2)
            &&& (grow ==> 0 <= r.2 <= avail)
            &&& (!grow ==> avail <= r.2 <= 0)
        }),
    decreases sizes.len(),
{
    if sizes.len() == 0 {
    } else {
        lemma_flex_count_bounds(caps, grow);
        let rest_sizes = sizes.drop_first();
        let rest_caps = caps.drop_first();
        assert(entries_ok(rest_sizes, rest_caps)) by {
            assert(forall|j: int|
                0 <= j < rest_sizes.len() ==> rest_sizes[j] == sizes[j + 1] && rest_caps[j]
                    == caps[j + 1]);
        }
        if is_flex(caps[0], grow) {
            let k = flex_count(caps, grow);
            assert(k >= 1) by {
                lemma_flex_count_bounds(caps.drop_first(), grow);
            }
            let share = spec_share(avail, k);
            if grow {
                assert(0 <= share <= avail) by (nonlinear_arith)
                    requires
                        0 <= avail,
                        k >= 1,
                        share == avail / k,
                ;
            } else {
                assert(avail <= share <= 0) by (nonlinear_arith)
                    requires
                        avail <= 0,
                        k >= 1,
                        share == -((-avail) / k),
                ;
            }
            let change = if grow {
                if (caps[0] as int) < share {
                    caps[0] as int
                } else {
                    share
                }
            } else {
                if (caps[0] as int) > share {
                    caps[0] as int
                } else {
                    share
                }
            };
            lemma_round_props(rest_sizes, rest_caps, avail - change, grow);
            let rest = spec_round(rest_sizes, rest_caps, avail - change, grow);
            let r = spec_round(sizes, caps, avail, grow);
            assert(r.0 == seq![(sizes[0] + change) as i64] + rest.0);
            lemma_isum_cons((sizes[0] + change) as i64, rest.0);
            assert(seq_isum(sizes) == sizes[0] + seq_isum(rest_sizes));
            assert(forall|j: int| 1 <= j < sizes.len() ==> r.0[j] == rest.0[j - 1]);
            assert(forall|j: int| 1 <= j < sizes.len() ==> r.1[j] == rest.1[j - 1]);
            assert(forall|j: int|
                1 <= j < sizes.len() ==> sizes[j] == rest_sizes[j - 1] && caps[j] == rest_caps[j
                    - 1]);
        } else {
            lemma_round_props(rest_sizes, rest_caps, avail, grow);
            let rest = spec_round(rest_sizes, rest_caps, avail, grow);
            let r = spec_round(sizes, caps, avail, grow);
            assert(r.0 == seq![sizes[0]] + rest.0);
            lemma_isum_cons(sizes[0], rest.0);
            assert(seq_isum(sizes) == sizes[0] + seq_isum(rest_sizes));
            assert(forall|j: int| 1 <= j < sizes.len() ==> r.0[j] == rest.0[j - 1]);
            assert(forall|j: int| 1 <= j < sizes.len() ==> r.1[j] == rest.1[j - 1]);
            assert(forall|j: int|
                1 <= j < sizes.len() ==> sizes[j] == rest_sizes[j - 1] && caps[j] == rest_caps[j
                    - 1]);
        }
    }
}

/// What the whole distribution guarantees: sizes keep their count, each
/// child's final size moves only in the leftover's direction and never
/// past that child's capacity (in particular, in the shrink case no child
/// falls below its probed minimum), the total growth equals the leftover
/// consumed, and the remaining leftover keeps its sign.
#[verifier::rlimit(100)]
pub proof fn lemma_distribute_props(sizes: Seq<i64>, caps: Seq<i64>, avail: int, fuel: nat)
    requires
        entries_ok(sizes, caps),
        -MAX_DIM <= avail <= MAX_DIM,
    ensures
        ({
            let r = spec_distribute(sizes, caps, avail, fuel);
            &&& r.0.len() == sizes.len()
            &&& forall|j: int|
                0 <= j < sizes.len() ==> (if avail >= 0 {
                    sizes[j] <= #[trigger] r.0[j] && (caps[j] >= 0 ==> r.0[j] <= sizes[j]
                        + caps[j]) && (caps[j] < 0 ==> r.0[j] == sizes[j])
                } else {
                    r.0[j] <= sizes[j] && (caps[j] <= 0 ==> sizes[j] + caps[j] <= r.0[j]) && (
                    caps[j] > 0 ==> r.0[j] == sizes[j])
                })
            &&& forall|j: int| 0 <= j < sizes.len() ==> dim_ok(#[trigger] r.0[j] as int)
            &&& r.1.len() == caps.len()
            &&& forall|j: int|
                0 <= j < sizes.len() ==> #[trigger] (r.0[j] + r.1[j]) == sizes[j] + caps[j]
            &&& seq_isum(r.0) == seq_isum(sizes) + (avail - r.2)
            &&& (avail >= 0 ==> 0 <= r.2 <= avail)
            &&& (avail < 0 ==> avail <= r.2 <= 0)
        }),
    decreases fuel,
{
    if fuel == 0 || (-EPS <= avail && avail <= EPS) || flex_count(caps, avail > 0) == 0 {
    } else {
        let grow = avail > 0;
        lemma_round_props(sizes, caps, avail, grow);
        let s = spec_round(sizes, caps, avail, grow);
        lemma_distribute_props(s.0, s.1, s.2, (fuel - 1) as nat);
        let r = spec_distribute(sizes, caps, avail, fuel);
        assert(r == spec_distribute(s.0, s.1, s.2, (fuel - 1) as nat));
        assert(r.1.len() == caps.len());
        assert forall|j: int|
            0 <= j < sizes.len() implies (if avail >= 0 {
            sizes[j] <= #[trigger] r.0[j] && (caps[j] >= 0 ==> r.0[j] <= sizes[j] + caps[j]) && (
            caps[j] < 0 ==> r.0[j] == sizes[j])
        } else {
            r.0[j] <= sizes[j] && (caps[j] <= 0 ==> sizes[j] + caps[j] <= r.0[j]) && (caps[j] > 0
                ==> r.0[j] == sizes[j])
        }) by {
            assert(s.0[j] + s.1[j] == sizes[j] + caps[j]);
        }
        assert forall|j: int|
            0 <= j < sizes.len() implies #[trigger] (r.0[j] + r.1[j]) == sizes[j] + caps[j] by {
            assert(s.0[j] + s.1[j] == sizes[j] + caps[j]);
        }
    }
}

/// A leftover already within epsilon of zero triggers no redistribution:
/// the sizes and the capacities come back exactly as they went in and no
/// capacity is consumed.
pub proof fn lemma_distribute_epsilon(sizes: Seq<i64>, caps: Seq<i64>, avail: int, fuel: nat)
    requires
        -EPS <= avail <= EPS,
    ensures
        spec_distribute(sizes, caps, avail, fuel) == (sizes, caps, avail),
{
}

/// Count the still-flexible capacities from position `i` on.
pub fn count_flex(caps: &Vec<i64>, i: usize, grow: bool) -> (r: usize)
    requires
        i <= caps@.len(),
    ensures
        r as int == flex_count(caps@.skip(i as int), grow),
        r <= caps@.len() - i,
        i < caps@.len() && is_flex(caps@[i as int], grow) ==> r >= 1,
    decreases caps@.len() - i,
{
    if i == caps.len() {
        proof {
            assert(caps@.skip(i as int) =~= Seq::<i64>::empty());
        }
        0
    } else {
        let head = caps[i];
        let rest = count_flex(caps, i + 1, grow);
        proof {
            assert(caps@.skip(i as int).drop_first() =~= caps@.skip(i as int + 1));
            assert(caps@.skip(i as int)[0] == caps@[i as int]);
        }
        if if grow {
            head > EPS
        } else {
            head < -EPS
        } {
            rest + 1
        } else {
            rest
        }
    }
}

/// One executable distribution round from position `i` on, mirroring
/// `spec_round` over the suffix and leaving the prefix untouched.
pub fn round_step(
    sizes: &mut Vec<i64>,
    caps: &mut Vec<i64>,
    i: usize,
    avail: i64,
    grow: bool,
) -> (r: i64)
    requires
        i <= old(sizes)@.len(),
        old(sizes)@.len() <= crate::geom::MAX_NODES,
        entries_ok(old(sizes)@.skip(i as int), old(caps)@.skip(i as int)),
        old(sizes)@.len() == old(caps)@.len(),
        grow ==> 0 <= avail <= MAX_DIM,
        !grow ==> -MAX_DIM <= avail <= 0,
    ensures
        ({
            let rr = spec_round(
                old(sizes)@.skip(i as int),
                old(caps)@.skip(i as int),
                avail as int,
                grow,
            );
            &&& final(sizes)@ == old(sizes)@.take(i as int) + rr.0
            &&& final(caps)@ == old(caps)@.take(i as int) + rr.1
            &&& r as int == rr.2
        }),
    decreases old(sizes)@.len() - i,
{
    proof {
        lemma_round_props(old(sizes)@.skip(i as int), old(caps)@.skip(i as int), avail as int, grow);
    }
    if i == sizes.len() {
        proof {
            assert(old(sizes)@.skip(i as int) =~= Seq::<i64>::empty());
            assert(old(caps)@.skip(i as int) =~= Seq::<i64>::empty());
            assert(final(sizes)@ =~= old(sizes)@.take(i as int) + old(sizes)@.skip(i as int));
            assert(final(caps)@ =~= old(caps)@.take(i as int) + old(caps)@.skip(i as int));
        }
        return avail;
    }
    proof {
        assert(old(sizes)@.skip(i as int)[0] == old(sizes)@[i as int]);
        assert(old(caps)@.skip(i as int)[0] == old(caps)@[i as int]);
        assert(old(sizes)@.skip(i as int).drop_first() =~= old(sizes)@.skip(i as int + 1));
        assert(old(caps)@.skip(i as int).drop_first() =~= old(caps)@.skip(i as int + 1));
        lemma_flex_count_bounds(old(caps)@.skip(i as int), grow);
    }
    let cap = caps[i];
    let flexible = if grow {
        cap > EPS
    } else {
        cap < -EPS
    };
    if flexible {
        let k = count_flex(caps, i, grow);
        proof {
            assert(flex_count(old(caps)@.skip(i as int), grow) >= 1);
        }
        let share = if avail >= 0 {
            avail / (k as i64)
        } else {
            -((-avail) / (k as i64))
        };
        proof {
            if grow {
                assert(0 <= share <= avail) by (nonlinear_arith)
                    requires
                        0 <= avail,
                        k >= 1,
                        share == avail as int / k as int,
                ;
            } else {
                assert(avail <= share <= 0) by (nonlinear_arith)
                    requires
                        avail <= 0,
                        k >= 1,
                        share == -((-avail as int) / k as int),
                ;
            }
        }
        let change = if grow {
            if cap < share {
                cap
            } else {
                share
            }
        } else {
            if cap > share {
                cap
            } else {
                share
            }
        };
        let old_size = sizes[i];
        sizes.set(i, old_size + change);
        caps.set(i, cap - change);
        proof {
            assert(sizes@.skip(i as int + 1) =~= old(sizes)@.skip(i as int + 1));
            assert(caps@.skip(i as int + 1) =~= old(caps)@.skip(i as int + 1));
        }
        let r = round_step(sizes, caps, i + 1, avail - change, grow);
        proof {
            let rr = spec_round(
                old(sizes)@.skip(i as int),
                old(caps)@.skip(i as int),
                avail as int,
                grow,
            );
            let mid_sizes = old(sizes)@.update(i as int, (old(sizes)@[i as int] + change) as i64);
            let mid_caps = old(caps)@.update(i as int, (old(caps)@[i as int] - change) as i64);
            let rest = spec_round(
                mid_sizes.skip(i as int + 1),
                mid_caps.skip(i as int + 1),
                avail - change,
                grow,
            );
            assert(mid_sizes.skip(i as int + 1) =~= old(sizes)@.skip(i as int + 1));
            assert(mid_caps.skip(i as int + 1) =~= old(caps)@.skip(i as int + 1));
            let ks = flex_count(old(caps)@.skip(i as int), grow);
            assert(k as int == ks);
            assert(share as int == spec_share(avail as int, ks));
            assert(rr.0 == seq![(old(sizes)@[i as int] + change) as i64] + rest.0);
            assert(rr.1 == seq![(old(caps)@[i as int] - change) as i64] + rest.1);
            assert(mid_sizes.take(i as int + 1) =~= old(sizes)@.take(i as int) + seq![
                (old(sizes)@[i as int] + change) as i64,
            ]);
            assert(mid_caps.take(i as int + 1) =~= old(caps)@.take(i as int) + seq![
                (old(caps)@[i as int] - change) as i64,
            ]);
            assert(final(sizes)@ == mid_sizes.take(i as int + 1) + rest.0);
            assert(final(sizes)@ =~= old(sizes)@.take(i as int) + rr.0);
            assert(final(caps)@ == mid_caps.take(i as int + 1) + rest.1);
            assert(final(caps)@ =~= old(caps)@.take(i as int) + rr.1);
        }
        r
    } else {
        let r = round_step(sizes, caps, i + 1, avail, grow);
        proof {
            let rr = spec_round(
                old(sizes)@.skip(i as int),
                old(caps)@.skip(i as int),
                avail as int,
                grow,
            );
            let rest = spec_round(
                old(sizes)@.skip(i as int + 1),
                old(caps)@.skip(i as int + 1),
                avail as int,
                grow,
            );
            assert(rr.0 == seq![old(sizes)@[i as int]] + rest.0);
            assert(rr.1 == seq![old(caps)@[i as int]] + rest.1);
            assert(old(sizes)@.take(i as int + 1) =~= old(sizes)@.take(i as int) + seq![
                old(sizes)@[i as int],
            ]);
            assert(old(caps)@.take(i as int + 1) =~= old(caps)@.take(i as int) + seq![
                old(caps)@[i as int],
            ]);
            assert(final(sizes)@ == old(sizes)@.take(i as int + 1) + rest.0);
            assert(final(sizes)@ =~= old(sizes)@.take(i as int) + rr.0);
            assert(final(caps)@ == old(caps)@.take(i as int + 1) + rest.1);
            assert(final(caps)@ =~= old(caps)@.take(i as int) + rr.1);
        }
        r
    }
}

/// Run the distribution fixed point in place, with one round of fuel per
/// child plus one. Returns the leftover that could not be placed.
#[verifier::loop_isolation(false)]
pub fn run_distribute(sizes: &mut Vec<i64>, caps: &mut Vec<i64>, avail: i64) -> (r: i64)
    requires
        entries_ok(old(sizes)@, old(caps)@),
        old(sizes)@.len() <= crate::geom::MAX_NODES,
        -MAX_DIM <= avail <= MAX_DIM,
    ensures
        ({
            let rr = spec_distribute(
                old(sizes)@,
                old(caps)@,
                avail as int,
                (old(sizes)@.len() + 1) as nat,
            );
            &&& final(sizes)@ == rr.0
            &&& final(caps)@ == rr.1
            &&& r as int == rr.2
        }),
{
    let ghost orig_sizes = sizes@;
    let ghost orig_caps = caps@;
    let ghost orig_avail = avail as int;
    let ghost total_fuel = (sizes@.len() + 1) as nat;
    let mut fuel: usize = sizes.len() + 1;
    let mut avail: i64 = avail;
    loop
        invariant
            sizes@.len() == orig_sizes.len(),
            caps@.len() == orig_caps.len(),
            entries_ok(sizes@, caps@),
            -MAX_DIM <= avail <= MAX_DIM,
            fuel <= total_fuel,
            spec_distribute(orig_sizes, orig_caps, orig_avail, total_fuel) == spec_distribute(
                sizes@,
                caps@,
                avail as int,
                fuel as nat,
            ),
        decreases fuel,
    {
        if fuel == 0 {
            proof {
                assert(spec_distribute(sizes@, caps@, avail as int, fuel as nat) == (
                    sizes@,
                    caps@,
                    avail as int,
                ));
            }
            return avail;
        }
        if -EPS <= avail && avail <= EPS {
            proof {
                assert(spec_distribute(sizes@, caps@, avail as int, fuel as nat) == (
                    sizes@,
                    caps@,
                    avail as int,
                ));
            }
            return avail;
        }
        let grow = avail > 0;
        let k = count_flex(caps, 0, grow);
        proof {
            assert(caps@.skip(0) =~= caps@);
        }
        if k == 0 {
            proof {
                assert(flex_count(caps@, avail > 0) == 0);
                assert(spec_distribute(sizes@, caps@, avail as int, fuel as nat) == (
                    sizes@,
                    caps@,
                    avail as int,
                ));
            }
            return avail;
        }
        proof {
            lemma_round_props(sizes@, caps@, avail as int, grow);
            assert(sizes@.skip(0) =~= sizes@);
            assert(sizes@.take(0) =~= Seq::<i64>::empty());
            assert(caps@.take(0) =~= Seq::<i64>::empty());
        }
        let ghost pre_sizes = sizes@;
        let ghost pre_caps = caps@;
        let ghost pre_fuel = fuel as nat;
        let new_avail = round_step(sizes, caps, 0, avail, grow);
        proof {
            let rr = spec_round(pre_sizes, pre_caps, avail as int, grow);
            assert(sizes@ =~= rr.0);
            assert(caps@ =~= rr.1);
            assert(new_avail as int == rr.2);
            assert(flex_count(pre_caps, avail > 0) == k as int);
            assert(spec_distribute(pre_sizes, pre_caps, avail as int, pre_fuel)
                == spec_distribute(rr.0, rr.1, rr.2, (pre_fuel - 1) as nat));
        }
        avail = new_avail;
        fuel = fuel - 1;
    }
}

} // verus!
