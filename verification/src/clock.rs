//! CLOCK replacement: a hand goes round the frames, giving each one that was used
//! lately a second chance.

use vstd::prelude::*;

verus! {

/// The frame that the hand reaches after `i` steps.
pub open spec fn reached(hand: int, i: int, n: int) -> int {
    if hand + i < n {
        hand + i
    } else {
        hand + i - n
    }
}

/// Frame `h` is among the first `i` that the hand reaches.
pub open spec fn passed(hand: int, i: int, n: int, h: int) -> bool {
    if h >= hand {
        h - hand < i
    } else {
        h + n - hand < i
    }
}

/// Frame `h` may be taken and was not used lately.
pub open spec fn cold(open: Seq<bool>, refs: Seq<bool>, h: int) -> bool {
    open[h] && !refs[h]
}

/// The reference bits after the hand passed the first `i` frames: those that may
/// be taken lost theirs.
pub open spec fn spent(open: Seq<bool>, refs: Seq<bool>, hand: int, i: int) -> Seq<bool> {
    Seq::new(
        refs.len(),
        |h: int| refs[h] && !(open[h] && passed(hand, i, refs.len() as int, h)),
    )
}

/// The reference bits after CLOCK settled on frame `h`: the hand passed those
/// before `h`, or, where `h` itself had a second chance to lose, all of them.
pub open spec fn spent_to(open: Seq<bool>, refs: Seq<bool>, hand: int, h: int) -> Seq<bool> {
    let n = refs.len() as int;
    spent(
        open,
        refs,
        hand,
        if refs[h] {
            n
        } else if h >= hand {
            h - hand
        } else {
            h + n - hand
        },
    )
}

/// CLOCK takes frame `h`: the first cold one that the hand reaches, or, where
/// none is cold, the first that may be taken at all.
pub open spec fn takes(open: Seq<bool>, refs: Seq<bool>, hand: int, h: int) -> bool {
    let n = refs.len() as int;
    exists|i: int|
        #![trigger reached(hand, i, n)]
        {
            &&& 0 <= i < n
            &&& h == reached(hand, i, n)
            &&& open[h]
            &&& !refs[h] || forall|k: int| 0 <= k < n ==> !#[trigger] cold(open, refs, k)
            &&& forall|j: int|
                0 <= j < i ==> if refs[h] {
                    !open[#[trigger] reached(hand, j, n)]
                } else {
                    !cold(open, refs, reached(hand, j, n))
                }
        }
}

/// The place after `h`.
pub fn step(h: usize, n: usize) -> (r: usize)
    requires
        h < n,
    ensures
        r == reached(h as int, 1, n as int),
        r < n,
{
    if h + 1 < n {
        h + 1
    } else {
        0
    }
}

/// Find the frame to take, spending second chances on the way. `None` iff no frame
/// may be taken.
pub fn pick(open: &Vec<bool>, refs: &mut Vec<bool>, hand: usize) -> (r: Option<usize>)
    requires
        open@.len() == old(refs)@.len(),
        hand < open@.len(),
    ensures
        match r {
            None => {
                &&& forall|k: int| 0 <= k < open@.len() ==> !#[trigger] open@[k]
                &&& final(refs)@ == old(refs)@
            },
            Some(h) => {
                &&& h < open@.len()
                &&& open@[h as int]
                &&& takes(open@, old(refs)@, hand as int, h as int)
                &&& final(refs)@ == spent_to(open@, old(refs)@, hand as int, h as int)
            },
        },
{
    let n: usize = open.len();
    let ghost f0 = refs@;
    let mut h: usize = hand;
    let mut i: usize = 0;
    assert(f0 =~= spent(open@, f0, hand as int, 0));
    while i < n
        invariant
            i <= n == open@.len(),
            n == f0.len(),
            hand < n,
            h < n,
            i < n ==> h == reached(hand as int, i as int, n as int),
            i == n ==> h == hand,
            f0 == old(refs)@,
            refs@ == spent(open@, f0, hand as int, i as int),
            forall|j: int|
                0 <= j < i ==> !cold(open@, f0, #[trigger] reached(hand as int, j, n as int)),
        decreases n - i,
    {
        if open[h] {
            if refs[h] {
                refs[h] = false;
            } else {
                proof {
                    assert(reached(hand as int, i as int, n as int) == h);
                    assert(takes(open@, f0, hand as int, h as int));
                }
                return Some(h);
            }
        }
        assert(refs@ =~= spent(open@, f0, hand as int, i + 1));
        h = step(h, n);
        i = i + 1;
    }
    proof {
        assert forall|k: int| 0 <= k < n implies !#[trigger] cold(open@, f0, k) by {
            let j = if k >= hand {
                k - hand
            } else {
                k + n - hand
            };
            assert(reached(hand as int, j, n as int) == k);
        }
    }
    i = 0;
    while i < n
        invariant
            i <= n == open@.len(),
            n == f0.len(),
            hand < n,
            h < n,
            i < n ==> h == reached(hand as int, i as int, n as int),
            f0 == old(refs)@,
            refs@ == spent(open@, f0, hand as int, n as int),
            forall|k: int| 0 <= k < n ==> !#[trigger] cold(open@, f0, k),
            forall|j: int|
                0 <= j < i ==> !open@[#[trigger] reached(hand as int, j, n as int)],
        decreases n - i,
    {
        if open[h] {
            proof {
                assert(reached(hand as int, i as int, n as int) == h);
                assert(!cold(open@, f0, h as int));
                assert(takes(open@, f0, hand as int, h as int));
            }
            return Some(h);
        }
        h = step(h, n);
        i = i + 1;
    }
    proof {
        assert forall|k: int| 0 <= k < n implies !#[trigger] open@[k] by {
            let j = if k >= hand {
                k - hand
            } else {
                k + n - hand
            };
            assert(reached(hand as int, j, n as int) == k);
        }
        assert(refs@ =~= f0);
    }
    None
}

// ---- laws ----

/// How many steps the hand makes to reach frame `h`.
pub open spec fn away(hand: int, h: int, n: int) -> int {
    (h - hand) % n
}

proof fn lemma_away(hand: int, h: int, n: int)
    requires
        0 <= hand < n,
        0 <= h < n,
    ensures
        0 <= away(hand, h, n) < n,
        reached(hand, away(hand, h, n), n) == h,
        forall|i: int| 0 <= i < n && #[trigger] reached(hand, i, n) == h ==> i == away(hand, h, n),
        away(hand, h, n) == if h >= hand {
            h - hand
        } else {
            h + n - hand
        },
{
    let d = h - hand;
    if h >= hand {
        assert(d % n == d) by (nonlinear_arith)
            requires
                0 <= d < n,
        ;
    } else {
        assert(d % n == d + n) by (nonlinear_arith)
            requires
                -n < d < 0,
        ;
    }
}

/// CLOCK takes the nearest frame that may be taken and was not used lately; one that was used
/// lately only where there is no other, and then the nearest.
pub proof fn law_clock_takes_the_nearest(open: Seq<bool>, refs: Seq<bool>, hand: int, h: int)
    requires
        open.len() == refs.len(),
        0 <= hand < refs.len(),
        takes(open, refs, hand, h),
    ensures
        0 <= h < refs.len(),
        open[h],
        forall|k: int|
            0 <= k < refs.len() && open[k] && !#[trigger] refs[k] ==> !refs[h] && away(
                hand,
                h,
                refs.len() as int,
            ) <= away(hand, k, refs.len() as int),
        forall|k: int|
            0 <= k < refs.len() && #[trigger] open[k] && refs[h] ==> away(
                hand,
                h,
                refs.len() as int,
            ) <= away(hand, k, refs.len() as int),
{
    let n = refs.len() as int;
    let i = choose|i: int|
        #![trigger reached(hand, i, n)]
        {
            &&& 0 <= i < n
            &&& h == reached(hand, i, n)
            &&& open[h]
            &&& !refs[h] || forall|k: int| 0 <= k < n ==> !#[trigger] cold(open, refs, k)
            &&& forall|j: int|
                0 <= j < i ==> if refs[h] {
                    !open[#[trigger] reached(hand, j, n)]
                } else {
                    !cold(open, refs, reached(hand, j, n))
                }
        };
    lemma_away(hand, h, n);
    assert forall|k: int| 0 <= k < n && open[k] && !#[trigger] refs[k] implies !refs[h] && away(
        hand,
        h,
        n,
    ) <= away(hand, k, n) by {
        assert(cold(open, refs, k));
        lemma_away(hand, k, n);
        let j = away(hand, k, n);
        if j < i {
            assert(!cold(open, refs, reached(hand, j, n)));
        }
    }
    assert forall|k: int| 0 <= k < n && #[trigger] open[k] && refs[h] implies away(hand, h, n)
        <= away(hand, k, n) by {
        lemma_away(hand, k, n);
        let j = away(hand, k, n);
        if j < i {
            assert(!open[reached(hand, j, n)]);
        }
    }
}

/// On its way the hand takes the second chance of the frames that it passes and that may be
/// taken; every other frame keeps what it had, and none gets a new chance.
pub proof fn law_second_chances_are_spent_on_the_way(
    open: Seq<bool>,
    refs: Seq<bool>,
    hand: int,
    h: int,
    k: int,
)
    requires
        open.len() == refs.len(),
        0 <= hand < refs.len(),
        0 <= h < refs.len(),
        0 <= k < refs.len(),
    ensures
        spent_to(open, refs, hand, h).len() == refs.len(),
        !open[k] ==> spent_to(open, refs, hand, h)[k] == refs[k],
        open[k] && refs[h] ==> !spent_to(open, refs, hand, h)[k],
        open[k] && !refs[h] && away(hand, k, refs.len() as int) < away(hand, h, refs.len() as int)
            ==> !spent_to(open, refs, hand, h)[k],
        !refs[h] && away(hand, k, refs.len() as int) >= away(hand, h, refs.len() as int)
            ==> spent_to(open, refs, hand, h)[k] == refs[k],
{
    lemma_away(hand, h, refs.len() as int);
    lemma_away(hand, k, refs.len() as int);
}

} // verus!
