use vstd::prelude::*;

verus! {

/// A multiset of dice faces: how many of the dice in play show each of the
/// six face values. A value never holds more than the five dice of a turn.
#[derive(Clone, Copy, PartialEq, Eq, Structural)]
pub struct Dice {
    pub ones: u8,
    pub twos: u8,
    pub threes: u8,
    pub fours: u8,
    pub fives: u8,
    pub sixes: u8,
}

/// n! for the small arguments that dice counts can take.
pub open spec fn fact(n: nat) -> nat
    decreases n,
{
    if n == 0 {
        1
    } else {
        n * fact((n - 1) as nat)
    }
}

/// 6^n: the number of ordered outcomes of rolling n fair dice.
pub open spec fn pow6(n: nat) -> nat
    decreases n,
{
    if n == 0 {
        1
    } else {
        6 * pow6((n - 1) as nat)
    }
}

impl Dice {
    /// Total number of dice in the multiset.
    pub open spec fn spec_n_dice(self) -> int {
        self.ones + self.twos + self.threes + self.fours + self.fives + self.sixes
    }

    /// The invariant of every dice multiset: at most five dice.
    pub open spec fn wf(self) -> bool {
        self.spec_n_dice() <= 5
    }

    /// Sum of the shown face values.
    pub open spec fn spec_sum(self) -> int {
        1 * self.ones + 2 * self.twos + 3 * self.threes + 4 * self.fours + 5 * self.fives
            + 6 * self.sixes
    }

    pub open spec fn spec_has_n_of_a_kind(self, n: u8) -> bool {
        self.ones >= n || self.twos >= n || self.threes >= n || self.fours >= n || self.fives >= n
            || self.sixes >= n
    }

    pub open spec fn spec_has_small_straight(self) -> bool {
        (self.ones > 0 && self.twos > 0 && self.threes > 0 && self.fours > 0) || (self.twos > 0
            && self.threes > 0 && self.fours > 0 && self.fives > 0) || (self.threes > 0
            && self.fours > 0 && self.fives > 0 && self.sixes > 0)
    }

    pub open spec fn spec_has_large_straight(self) -> bool {
        (self.ones > 0 && self.twos > 0 && self.threes > 0 && self.fours > 0 && self.fives > 0)
            || (self.twos > 0 && self.threes > 0 && self.fours > 0 && self.fives > 0 && self.sixes
            > 0)
    }

    pub open spec fn spec_has_full_house(self) -> bool {
        (self.ones == 2 || self.twos == 2 || self.threes == 2 || self.fours == 2 || self.fives == 2
            || self.sixes == 2) && (self.ones == 3 || self.twos == 3 || self.threes == 3
            || self.fours == 3 || self.fives == 3 || self.sixes == 3)
    }

    /// The multinomial weight of this multiset: how many ordered rolls of
    /// `spec_n_dice()` dice show exactly these counts, divided into the
    /// numerator n! and, below, the denominator of the exact probability.
    pub open spec fn spec_probability_numerator(self) -> nat {
        fact(self.spec_n_dice() as nat)
    }

    /// Denominator of the exact roll probability:
    /// 6^n · 1s! · 2s! · 3s! · 4s! · 5s! · 6s!.
    pub open spec fn spec_probability_denominator(self) -> nat {
        pow6(self.spec_n_dice() as nat) * fact(self.ones as nat) * fact(self.twos as nat) * fact(
            self.threes as nat,
        ) * fact(self.fours as nat) * fact(self.fives as nat) * fact(self.sixes as nat)
    }

    /// Pointwise union of two multisets.
    pub open spec fn spec_combine(dice1: Dice, dice2: Dice) -> Dice {
        Dice {
            ones: (dice1.ones + dice2.ones) as u8,
            twos: (dice1.twos + dice2.twos) as u8,
            threes: (dice1.threes + dice2.threes) as u8,
            fours: (dice1.fours + dice2.fours) as u8,
            fives: (dice1.fives + dice2.fives) as u8,
            sixes: (dice1.sixes + dice2.sixes) as u8,
        }
    }

    /// Does `a` keep at most the dice of `b`, face by face?
    pub open spec fn spec_subset(a: Dice, b: Dice) -> bool {
        a.ones <= b.ones && a.twos <= b.twos && a.threes <= b.threes && a.fours <= b.fours
            && a.fives <= b.fives && a.sixes <= b.sixes
    }

    /// The dice of `b` not kept in `a`: the rerolled remainder that
    /// completes the keep `a` to the final roll `b`.
    pub open spec fn spec_diff(b: Dice, a: Dice) -> Dice {
        Dice {
            ones: (b.ones - a.ones) as u8,
            twos: (b.twos - a.twos) as u8,
            threes: (b.threes - a.threes) as u8,
            fours: (b.fours - a.fours) as u8,
            fives: (b.fives - a.fives) as u8,
            sixes: (b.sixes - a.sixes) as u8,
        }
    }

    /// The multiset with no dice at all.
    pub fn empty() -> (r: Dice)
        ensures
            r.ones == 0 && r.twos == 0 && r.threes == 0 && r.fours == 0 && r.fives == 0 && r.sixes
                == 0,
            r.wf(),
    {
        Dice { ones: 0, twos: 0, threes: 0, fours: 0, fives: 0, sixes: 0 }
    }

    /// Pointwise union of two disjoint hands, e.g. a kept subset and the
    /// rerolled remainder.
    pub fn combine(dice1: Dice, dice2: Dice) -> (r: Dice)
        requires
            dice1.wf(),
            dice2.wf(),
            dice1.spec_n_dice() + dice2.spec_n_dice() <= 5,
        ensures
            r.ones == dice1.ones + dice2.ones,
            r.twos == dice1.twos + dice2.twos,
            r.threes == dice1.threes + dice2.threes,
            r.fours == dice1.fours + dice2.fours,
            r.fives == dice1.fives + dice2.fives,
            r.sixes == dice1.sixes + dice2.sixes,
            r.spec_n_dice() == dice1.spec_n_dice() + dice2.spec_n_dice(),
            r.wf(),
            r == Self::spec_combine(dice1, dice2),
    {
        Dice {
            ones: dice1.ones + dice2.ones,
            twos: dice1.twos + dice2.twos,
            threes: dice1.threes + dice2.threes,
            fours: dice1.fours + dice2.fours,
            fives: dice1.fives + dice2.fives,
            sixes: dice1.sixes + dice2.sixes,
        }
    }

    pub fn n_dice(&self) -> (r: u8)
        requires
            self.wf(),
        ensures
            r == self.spec_n_dice(),
    {
        self.ones + self.twos + self.threes + self.fours + self.fives + self.sixes
    }

    /// Game score of the hand: the sum of all shown face values.
    pub fn sum(&self) -> (r: u8)
        requires
            self.wf(),
        ensures
            r == self.spec_sum(),
    {
        1 * self.ones + 2 * self.twos + 3 * self.threes + 4 * self.fours + 5 * self.fives + 6
            * self.sixes
    }

    /// Does any single face occur at least n times?
    pub fn has_n_of_a_kind(&self, n: &u8) -> (r: bool)
        ensures
            r == self.spec_has_n_of_a_kind(*n),
    {
        self.ones >= *n || self.twos >= *n || self.threes >= *n || self.fours >= *n || self.fives
            >= *n || self.sixes >= *n
    }

    /// Four consecutive face values all present.
    pub fn has_small_straight(&self) -> (r: bool)
        ensures
            r == self.spec_has_small_straight(),
    {
        (self.ones > 0 && self.twos > 0 && self.threes > 0 && self.fours > 0) || (self.twos > 0
            && self.threes > 0 && self.fours > 0 && self.fives > 0) || (self.threes > 0
            && self.fours > 0 && self.fives > 0 && self.sixes > 0)
    }

    /// Five consecutive face values all present.
    pub fn has_large_straight(&self) -> (r: bool)
        ensures
            r == self.spec_has_large_straight(),
    {
        (self.ones > 0 && self.twos > 0 && self.threes > 0 && self.fours > 0 && self.fives > 0)
            || (self.twos > 0 && self.threes > 0 && self.fours > 0 && self.fives > 0 && self.sixes
            > 0)
    }

    /// A pair and a triple. The two faces are necessarily distinct, since one
    /// face cannot count both exactly 2 and exactly 3.
    pub fn has_full_house(&self) -> (r: bool)
        ensures
            r == self.spec_has_full_house(),
    {
        (self.ones == 2 || self.twos == 2 || self.threes == 2 || self.fours == 2 || self.fives == 2
            || self.sixes == 2) && (self.ones == 3 || self.twos == 3 || self.threes == 3
            || self.fours == 3 || self.fives == 3 || self.sixes == 3)
    }

    /// n! as a table over the only arguments a dice count can take.
    fn factorial(n: &u8) -> (r: u32)
        requires
            *n <= 5,
        ensures
            r == fact(*n as nat),
            r <= 120,
    {
        proof {
            reveal_with_fuel(fact, 7);
            assert(fact(0) == 1);
            assert(fact(1) == 1);
            assert(fact(2) == 2);
            assert(fact(3) == 6);
            assert(fact(4) == 24);
            assert(fact(5) == 120);
        }
        match *n {
            0 => 1,
            1 => 1,
            2 => 2,
            3 => 6,
            4 => 24,
            _ => 120,
        }
    }

    /// 6^n as a table over the only arguments a dice count can take.
    fn six_to_the(n: &u8) -> (r: u32)
        requires
            *n <= 5,
        ensures
            r == pow6(*n as nat),
            r <= 7776,
    {
        proof {
            reveal_with_fuel(pow6, 7);
            assert(pow6(0) == 1);
            assert(pow6(1) == 6);
            assert(pow6(2) == 36);
            assert(pow6(3) == 216);
            assert(pow6(4) == 1296);
            assert(pow6(5) == 7776);
        }
        match *n {
            0 => 1,
            1 => 6,
            2 => 36,
            3 => 216,
            4 => 1296,
            _ => 7776,
        }
    }

    /// Numerator of the exact probability of rolling exactly this multiset
    /// with `n_dice()` fair dice. The probability itself is
    /// numerator / denominator; the division is left to the caller so that
    /// the verified core stays in exact integers.
    pub fn probability_numerator(&self) -> (r: u32)
        requires
            self.wf(),
        ensures
            r == self.spec_probability_numerator(),
    {
        let n = self.n_dice();
        Self::factorial(&n)
    }

    /// A multiset as a single base-6 numeral, one digit per face count.
    /// Distinct multisets with all counts below 6 have distinct keys.
    pub open spec fn spec_key(self) -> int {
        self.ones + 6 * self.twos + 36 * self.threes + 216 * self.fours + 1296 * self.fives + 7776
            * self.sixes
    }

    /// All face values from `f` upward are absent.
    pub open spec fn spec_tail_zero(self, f: int) -> bool {
        &&& (f <= 1 ==> self.ones == 0)
        &&& (f <= 2 ==> self.twos == 0)
        &&& (f <= 3 ==> self.threes == 0)
        &&& (f <= 4 ==> self.fours == 0)
        &&& (f <= 5 ==> self.fives == 0)
        &&& (f <= 6 ==> self.sixes == 0)
    }

    /// The count of face `f` in this multiset.
    pub open spec fn spec_face(self, f: int) -> u8 {
        if f == 1 {
            self.ones
        } else if f == 2 {
            self.twos
        } else if f == 3 {
            self.threes
        } else if f == 4 {
            self.fours
        } else if f == 5 {
            self.fives
        } else {
            self.sixes
        }
    }

    /// The multiset with the count of face `f` replaced by `count`.
    pub open spec fn spec_with_face(self, f: int, count: u8) -> Dice {
        if f == 1 {
            Dice { ones: count, ..self }
        } else if f == 2 {
            Dice { twos: count, ..self }
        } else if f == 3 {
            Dice { threes: count, ..self }
        } else if f == 4 {
            Dice { fours: count, ..self }
        } else if f == 5 {
            Dice { fives: count, ..self }
        } else {
            Dice { sixes: count, ..self }
        }
    }

    fn with_face(self, f: u8, count: u8) -> (r: Dice)
        requires
            1 <= f <= 6,
        ensures
            r == self.spec_with_face(f as int, count),
    {
        match f {
            1 => Dice { ones: count, ..self },
            2 => Dice { twos: count, ..self },
            3 => Dice { threes: count, ..self },
            4 => Dice { fours: count, ..self },
            5 => Dice { fives: count, ..self },
            _ => Dice { sixes: count, ..self },
        }
    }

    /// One enumeration round: branch every partial multiset over all counts
    /// of face `f` that still fit among five dice. Counts ascend on the
    /// outside so that the base-6 keys of the output ascend strictly, which
    /// keeps the enumeration free of duplicates.
    fn grow_face(prev: &Vec<Dice>, f: u8) -> (r: Vec<Dice>)
        requires
            1 <= f <= 6,
            forall|i: int|
                0 <= i < prev@.len() ==> (#[trigger] prev@[i]).wf() && prev@[i].spec_tail_zero(
                    f as int,
                ),
            forall|i: int, j: int|
                0 <= i < j < prev@.len() ==> prev@[i].spec_key() < prev@[j].spec_key(),
        ensures
            forall|i: int|
                0 <= i < r@.len() ==> (#[trigger] r@[i]).wf() && r@[i].spec_tail_zero(
                    f as int + 1,
                ),
            forall|i: int, j: int| 0 <= i < j < r@.len() ==> r@[i].spec_key() < r@[j].spec_key(),
            forall|d: Dice| #![trigger d.spec_with_face(f as int, 0)]
                d.wf() && d.spec_tail_zero(f as int + 1) && prev@.contains(
                    d.spec_with_face(f as int, 0),
                ) ==> r@.contains(d),
    {
        let ghost p = pow6((f - 1) as nat);
        proof {
            lemma_pow6_pos((f - 1) as nat);
        }
        let mut r: Vec<Dice> = Vec::new();
        let mut count: u8 = 0;
        while count <= 5
            invariant
                1 <= f <= 6,
                count <= 6,
                p == pow6((f - 1) as nat),
                p >= 1,
                forall|i: int|
                    0 <= i < prev@.len() ==> (#[trigger] prev@[i]).wf() && prev@[i].spec_tail_zero(
                        f as int,
                    ),
                forall|i: int, j: int|
                    0 <= i < j < prev@.len() ==> prev@[i].spec_key() < prev@[j].spec_key(),
                forall|i: int|
                    0 <= i < r@.len() ==> (#[trigger] r@[i]).wf() && r@[i].spec_tail_zero(
                        f as int + 1,
                    ),
                forall|i: int, j: int|
                    0 <= i < j < r@.len() ==> r@[i].spec_key() < r@[j].spec_key(),
                forall|i: int| 0 <= i < r@.len() ==> (#[trigger] r@[i]).spec_key() < count * p,
                forall|d: Dice, i: int| #![trigger prev@[i], d.spec_with_face(f as int, 0)]
                    d.wf() && d.spec_tail_zero(f as int + 1) && 0 <= i < prev@.len() && prev@[i]
                        == d.spec_with_face(f as int, 0) && d.spec_face(f as int) < count
                        ==> r@.contains(d),
            decreases 6 - count,
        {
            let mut ki: usize = 0;
            while ki < prev.len()
                invariant
                    1 <= f <= 6,
                    count <= 5,
                    ki <= prev@.len(),
                    p == pow6((f - 1) as nat),
                    p >= 1,
                    forall|i: int|
                        0 <= i < prev@.len() ==> (#[trigger] prev@[i]).wf()
                            && prev@[i].spec_tail_zero(f as int),
                    forall|i: int, j: int|
                        0 <= i < j < prev@.len() ==> prev@[i].spec_key() < prev@[j].spec_key(),
                    forall|i: int|
                        0 <= i < r@.len() ==> (#[trigger] r@[i]).wf() && r@[i].spec_tail_zero(
                            f as int + 1,
                        ),
                    forall|i: int, j: int|
                        0 <= i < j < r@.len() ==> r@[i].spec_key() < r@[j].spec_key(),
                    forall|i: int|
                        0 <= i < r@.len() ==> (#[trigger] r@[i]).spec_key() < count * p + (if ki
                            < prev@.len() {
                            prev@[ki as int].spec_key()
                        } else {
                            p as int
                        }),
                    forall|d: Dice, i: int| #![trigger prev@[i], d.spec_with_face(f as int, 0)]
                        d.wf() && d.spec_tail_zero(f as int + 1) && 0 <= i < prev@.len()
                            && prev@[i] == d.spec_with_face(f as int, 0) && (d.spec_face(f as int)
                            < count || (d.spec_face(f as int) == count && i < ki))
                            ==> r@.contains(d),
                decreases prev@.len() - ki,
            {
                let ghost r_before = r@;
                let base = prev[ki];
                let fits = base.n_dice() + count <= 5;
                if fits {
                    proof {
                        lemma_with_face_key(base, f as int, count);
                    }
                    r.push(base.with_face(f, count));
                }
                proof {
                    lemma_with_face_key(prev@[ki as int], f as int, count);
                    if ki + 1 < prev@.len() {
                        assert(prev@[ki as int].spec_key() < prev@[ki as int + 1].spec_key());
                    }
                    assert forall|d: Dice, i: int|
                        d.wf() && d.spec_tail_zero(f as int + 1) && 0 <= i < prev@.len()
                            && prev@[i] == d.spec_with_face(f as int, 0) && (d.spec_face(f as int)
                            < count || (d.spec_face(f as int) == count && i
                            < ki + 1)) implies r@.contains(d) by {
                        if d.spec_face(f as int) == count && i == ki {
                            lemma_face_reconstruct(d, f as int);
                            assert(d == prev@[i].spec_with_face(f as int, count));
                            assert(prev@[i].spec_n_dice() == d.spec_n_dice() - count);
                            if fits {
                                assert(r@[r@.len() - 1] == d);
                            } else {
                                assert(d.spec_n_dice() > 5);
                            }
                        } else {
                            assert(r_before.contains(d));
                            let j = choose|j: int| 0 <= j < r_before.len() && r_before[j] == d;
                            assert(r@[j] == d);
                        }
                    }
                }
                ki = ki + 1;
            }
            proof {
                assert((count + 1) * p == count * p + p) by (nonlinear_arith);
            }
            count = count + 1;
        }
        proof {
            assert forall|d: Dice|
                d.wf() && d.spec_tail_zero(f as int + 1) && prev@.contains(
                    d.spec_with_face(f as int, 0),
                ) implies r@.contains(d) by {
                let i = choose|i: int|
                    0 <= i < prev@.len() && prev@[i] == d.spec_with_face(f as int, 0);
                assert(d.spec_face(f as int) <= d.spec_n_dice());
                assert(prev@[i] == d.spec_with_face(f as int, 0));
            }
        }
        r
    }

    /// Every multiset of at most five dice — each exactly once: the result
    /// has no duplicates and contains every well-formed multiset. The
    /// enumeration starts from the empty multiset and branches face by face
    /// over all counts that still fit. There are 462 of them.
    pub fn all_keeps() -> (r: Vec<Dice>)
        ensures
            forall|i: int| 0 <= i < r@.len() ==> (#[trigger] r@[i]).wf(),
            forall|i: int, j: int| 0 <= i < j < r@.len() ==> r@[i] != r@[j],
            forall|i: int, j: int|
                0 <= i < j < r@.len() ==> r@[i].spec_key() < r@[j].spec_key(),
            forall|d: Dice| d.wf() ==> r@.contains(d),
            r@.len() <= 46656,
    {
        let mut start: Vec<Dice> = Vec::new();
        start.push(Dice::empty());
        let k1 = Self::grow_face(&start, 1);
        let k2 = Self::grow_face(&k1, 2);
        let k3 = Self::grow_face(&k2, 3);
        let k4 = Self::grow_face(&k3, 4);
        let k5 = Self::grow_face(&k4, 5);
        let keeps = Self::grow_face(&k5, 6);
        proof {
            assert forall|i: int, j: int|
                0 <= i < j < keeps@.len() implies keeps@[i] != keeps@[j] by {
                assert(keeps@[i].spec_key() < keeps@[j].spec_key());
            }
            if keeps@.len() > 0 {
                lemma_key_ge_index(keeps@, keeps@.len() - 1);
                assert(keeps@[keeps@.len() - 1].spec_key() <= 46655);
            }
            assert forall|d: Dice| d.wf() implies keeps@.contains(d) by {
                let d5 = d.spec_with_face(6, 0);
                let d4 = d5.spec_with_face(5, 0);
                let d3 = d4.spec_with_face(4, 0);
                let d2 = d3.spec_with_face(3, 0);
                let d1 = d2.spec_with_face(2, 0);
                let d0 = d1.spec_with_face(1, 0);
                assert(start@[0] == d0);
                assert(start@.contains(d1.spec_with_face(1, 0)));
                assert(k1@.contains(d1));
                assert(k1@.contains(d2.spec_with_face(2, 0)));
                assert(k2@.contains(d2));
                assert(k2@.contains(d3.spec_with_face(3, 0)));
                assert(k3@.contains(d3));
                assert(k3@.contains(d4.spec_with_face(4, 0)));
                assert(k4@.contains(d4));
                assert(k4@.contains(d5.spec_with_face(5, 0)));
                assert(k5@.contains(d5));
                assert(k5@.contains(d.spec_with_face(6, 0)));
                assert(keeps@.contains(d));
            }
        }
        keeps
    }

    /// Denominator of the exact probability of rolling exactly this multiset:
    /// the count of all ordered rolls times the multinomial correction.
    pub fn probability_denominator(&self) -> (r: u64)
        requires
            self.wf(),
        ensures
            r == self.spec_probability_denominator(),
    {
        let n = self.n_dice();
        let d0 = Self::six_to_the(&n) as u64;
        let f1 = Self::factorial(&self.ones) as u64;
        let f2 = Self::factorial(&self.twos) as u64;
        let f3 = Self::factorial(&self.threes) as u64;
        let f4 = Self::factorial(&self.fours) as u64;
        let f5 = Self::factorial(&self.fives) as u64;
        let f6 = Self::factorial(&self.sixes) as u64;
        proof {
            vstd::arithmetic::mul::lemma_mul_upper_bound(d0 as int, 7776, f1 as int, 120);
            vstd::arithmetic::mul::lemma_mul_upper_bound(
                d0 as int * f1 as int,
                933120,
                f2 as int,
                120,
            );
            vstd::arithmetic::mul::lemma_mul_upper_bound(
                d0 as int * f1 as int * f2 as int,
                111974400,
                f3 as int,
                120,
            );
            vstd::arithmetic::mul::lemma_mul_upper_bound(
                d0 as int * f1 as int * f2 as int * f3 as int,
                13436928000,
                f4 as int,
                120,
            );
            vstd::arithmetic::mul::lemma_mul_upper_bound(
                d0 as int * f1 as int * f2 as int * f3 as int * f4 as int,
                1612431360000,
                f5 as int,
                120,
            );
            vstd::arithmetic::mul::lemma_mul_upper_bound(
                d0 as int * f1 as int * f2 as int * f3 as int * f4 as int * f5 as int,
                193491763200000,
                f6 as int,
                120,
            );
            vstd::arithmetic::mul::lemma_mul_nonnegative(d0 as int, f1 as int);
            vstd::arithmetic::mul::lemma_mul_nonnegative(d0 as int * f1 as int, f2 as int);
            vstd::arithmetic::mul::lemma_mul_nonnegative(
                d0 as int * f1 as int * f2 as int,
                f3 as int,
            );
            vstd::arithmetic::mul::lemma_mul_nonnegative(
                d0 as int * f1 as int * f2 as int * f3 as int,
                f4 as int,
            );
            vstd::arithmetic::mul::lemma_mul_nonnegative(
                d0 as int * f1 as int * f2 as int * f3 as int * f4 as int,
                f5 as int,
            );
        }
        let d1 = d0 * f1;
        let d2 = d1 * f2;
        let d3 = d2 * f3;
        let d4 = d3 * f4;
        let d5 = d4 * f5;
        let d6 = d5 * f6;
        d6
    }
}

/// One precomputed transition of the keep/roll table: a kept multiset (by
/// index into the keep enumeration), a reachable final roll (by index into
/// the canonical roll list), and the exact probability of the reroll that
/// joins them, as an exact numerator and denominator.
pub struct KeepAndRoll {
    pub keep_index: usize,
    pub roll_index: usize,
    pub numerator: u32,
    pub denominator: u64,
}

/// The full keep/roll table: every transition entry, the canonical list of
/// deduplicated five-dice outcomes, and the sizes of both index spaces.
/// Three ghost witnesses accompany the data: `keeps` is the enumerated keep
/// list in `keep_index` order; `entry_of_roll` names, for each canonical
/// roll, one entry that reaches it; `entry_of_pair` names, for each pair of
/// a keep index and a complementary reroll, the entry that pair generated.
pub struct KeepAndRollData {
    pub keeps_and_rolls: Vec<KeepAndRoll>,
    pub all_rolls: Vec<Dice>,
    pub n_keeps: usize,
    pub n_rolls: usize,
    pub keeps: Ghost<Seq<Dice>>,
    pub entry_of_roll: Ghost<Seq<int>>,
    pub entry_of_pair: Ghost<Map<(int, Dice), int>>,
}

impl KeepAndRoll {
    /// A transition entry is sound for a keep list and a roll list: its
    /// indices are in range, its keep — the `keep_index`-th element of the
    /// keep list — is contained in the canonical roll it points at, and its
    /// probability is exactly the multinomial probability of the one reroll
    /// that completes that keep to that roll.
    pub open spec fn spec_ok(self, keeps: Seq<Dice>, all_rolls: Seq<Dice>) -> bool {
        &&& self.keep_index < keeps.len()
        &&& self.roll_index < all_rolls.len()
        &&& Dice::spec_subset(keeps[self.keep_index as int], all_rolls[self.roll_index as int])
        &&& self.numerator == Dice::spec_diff(
            all_rolls[self.roll_index as int],
            keeps[self.keep_index as int],
        ).spec_probability_numerator()
        &&& self.denominator == Dice::spec_diff(
            all_rolls[self.roll_index as int],
            keeps[self.keep_index as int],
        ).spec_probability_denominator()
    }
}

/// The pair (keep index k, reroll d) has a recorded entry: it belongs to
/// keep k and points at the roll that k's keep and d combine to.
pub open spec fn spec_pair_recorded(
    m: Map<(int, Dice), int>,
    entries: Seq<KeepAndRoll>,
    rolls: Seq<Dice>,
    keeps: Seq<Dice>,
    k: int,
    d: Dice,
) -> bool {
    let e = m[(k, d)];
    &&& 0 <= e < entries.len()
    &&& entries[e].keep_index == k
    &&& rolls[entries[e].roll_index as int] == Dice::spec_combine(keeps[k], d)
}

impl KeepAndRollData {
    /// The full characterisation of the table. The keep list holds every
    /// well-formed keep exactly once and `n_keeps` counts them; the
    /// canonical rolls are distinct well-formed five-dice multisets counted
    /// by `n_rolls`; every entry is generated by its keep and roll, with the
    /// exact probability of the reroll between them; no two entries share a
    /// (keep index, roll index) pair; and every (keep, complementary reroll)
    /// pair has its entry, named by the `entry_of_pair` witness.
    pub open spec fn wf(self) -> bool {
        &&& self.n_rolls == self.all_rolls@.len()
        &&& self.n_keeps == self.keeps@.len()
        &&& forall|i: int|
            0 <= i < self.all_rolls@.len() ==> (#[trigger] self.all_rolls@[i]).wf()
                && self.all_rolls@[i].spec_n_dice() == 5
        &&& forall|i: int, j: int|
            0 <= i < j < self.all_rolls@.len() ==> self.all_rolls@[i] != self.all_rolls@[j]
        &&& forall|k: int| 0 <= k < self.keeps@.len() ==> (#[trigger] self.keeps@[k]).wf()
        &&& forall|k1: int, k2: int|
            0 <= k1 < k2 < self.keeps@.len() ==> self.keeps@[k1] != self.keeps@[k2]
        &&& forall|d: Dice| d.wf() ==> self.keeps@.contains(d)
        &&& forall|i: int|
            0 <= i < self.keeps_and_rolls@.len() ==> (#[trigger] self.keeps_and_rolls@[i]).spec_ok(
                self.keeps@,
                self.all_rolls@,
            )
        &&& forall|i: int, j: int|
            #![trigger self.keeps_and_rolls@[i], self.keeps_and_rolls@[j]]
            0 <= i < j < self.keeps_and_rolls@.len() ==> (self.keeps_and_rolls@[i].keep_index
                != self.keeps_and_rolls@[j].keep_index || self.keeps_and_rolls@[i].roll_index
                != self.keeps_and_rolls@[j].roll_index)
        &&& forall|k: int, d: Dice|
            #![trigger self.entry_of_pair@[(k, d)]]
            0 <= k < self.keeps@.len() && d.wf() && self.keeps@[k].spec_n_dice() + d.spec_n_dice()
                == 5 ==> spec_pair_recorded(
                self.entry_of_pair@,
                self.keeps_and_rolls@,
                self.all_rolls@,
                self.keeps@,
                k,
                d,
            )
    }
}

/// Sum of the lengths of the first `k` keep groups.
pub open spec fn flat_keeps(s: Seq<Vec<Dice>>, k: int) -> int
    decreases k,
{
    if k <= 0 {
        0
    } else {
        flat_keeps(s, k - 1) + s[k - 1]@.len()
    }
}

proof fn lemma_flat_keeps_empty(s: Seq<Vec<Dice>>, k: int)
    requires
        0 <= k <= s.len(),
        forall|j: int| 0 <= j < k ==> (#[trigger] s[j])@.len() == 0,
    ensures
        flat_keeps(s, k) == 0,
    decreases k,
{
    if k > 0 {
        lemma_flat_keeps_empty(s, k - 1);
    }
}

proof fn lemma_flat_keeps_grow(s1: Seq<Vec<Dice>>, s2: Seq<Vec<Dice>>, g: int, k: int, d: int)
    requires
        s1.len() == s2.len(),
        0 <= g < s1.len(),
        0 <= k <= s1.len(),
        forall|j: int| 0 <= j < s1.len() && j != g ==> (#[trigger] s2[j])@.len() == s1[j]@.len(),
        s2[g]@.len() == s1[g]@.len() + d,
    ensures
        flat_keeps(s2, k) == flat_keeps(s1, k) + if g < k {
            d
        } else {
            0
        },
    decreases k,
{
    if k > 0 {
        lemma_flat_keeps_grow(s1, s2, g, k - 1, d);
    }
}

proof fn lemma_flat_keeps_mono(s: Seq<Vec<Dice>>, a: int, b: int)
    requires
        0 <= a <= b,
    ensures
        flat_keeps(s, a) <= flat_keeps(s, b),
    decreases b,
{
    if b > a {
        lemma_flat_keeps_mono(s, a, b - 1);
    }
}

/// The i-th entry of the block belonging to keep `k0` points at the roll
/// that the keep and the i-th reroll of `group` combine to.
pub open spec fn spec_block_row(
    entries: Seq<KeepAndRoll>,
    rolls: Seq<Dice>,
    group: Seq<Dice>,
    keep: Dice,
    block_start: int,
    k0: int,
    i: int,
) -> bool {
    &&& entries[block_start + i].keep_index == k0
    &&& rolls[entries[block_start + i].roll_index as int] == Dice::spec_combine(keep, group[i])
}

/// Appending the next keep of the current group to the keep list keeps the
/// list duplicate-free and leaves every recorded fact about earlier keeps
/// intact.
proof fn lemma_keep_appended(
    before: Seq<Dice>,
    after: Seq<Dice>,
    keep: Dice,
    group: Seq<Dice>,
    base: int,
    ki: int,
    kc: int,
    entries: Seq<KeepAndRoll>,
    rolls: Seq<Dice>,
    pm: Map<(int, Dice), int>,
)
    requires
        after == before.push(keep),
        before.len() == base + ki,
        base >= 0,
        0 <= ki < group.len(),
        group[ki] == keep,
        forall|j: int| 0 <= j < group.len() ==> (#[trigger] group[j]).wf(),
        forall|j: int| 0 <= j < group.len() ==> (#[trigger] group[j]).spec_n_dice() == kc,
        forall|j1: int, j2: int|
            #![trigger group[j1], group[j2]]
            0 <= j1 < j2 < group.len() ==> group[j1] != group[j2],
        forall|i: int| 0 <= i < before.len() ==> (#[trigger] before[i]).wf(),
        forall|i: int| 0 <= i < base ==> (#[trigger] before[i]).spec_n_dice() < kc,
        forall|j: int| 0 <= j < ki ==> before[base + j] == (#[trigger] group[j]),
        forall|i1: int, i2: int| 0 <= i1 < i2 < before.len() ==> before[i1] != before[i2],
        forall|i: int| 0 <= i < entries.len() ==> (#[trigger] entries[i]).spec_ok(before, rolls),
        forall|k: int, d: Dice|
            #![trigger pm[(k, d)]]
            0 <= k < before.len() && d.wf() && before[k].spec_n_dice() + d.spec_n_dice() == 5
                ==> spec_pair_recorded(pm, entries, rolls, before, k, d),
    ensures
        forall|i: int| 0 <= i < after.len() ==> (#[trigger] after[i]).wf(),
        forall|i1: int, i2: int| 0 <= i1 < i2 < after.len() ==> after[i1] != after[i2],
        forall|d: Dice| before.contains(d) ==> after.contains(d),
        forall|j: int| 0 <= j < ki + 1 ==> after[base + j] == (#[trigger] group[j]),
        forall|i: int| 0 <= i < entries.len() ==> (#[trigger] entries[i]).spec_ok(after, rolls),
        forall|k: int, d: Dice|
            #![trigger pm[(k, d)]]
            0 <= k < after.len() - 1 && d.wf() && after[k].spec_n_dice() + d.spec_n_dice() == 5
                ==> spec_pair_recorded(pm, entries, rolls, after, k, d),
{
    assert forall|i1: int, i2: int|
        0 <= i1 < i2 < after.len() implies after[i1] != after[i2] by {
        if i2 == after.len() - 1 {
            assert(after[i1] == before[i1]);
            if i1 >= base {
                assert(before[i1] == group[i1 - base]);
            }
        }
    }
    assert forall|d: Dice| before.contains(d) implies after.contains(d) by {
        let j = choose|j: int| 0 <= j < before.len() && before[j] == d;
        assert(after[j] == d);
    }
    assert forall|i: int|
        0 <= i < entries.len() implies (#[trigger] entries[i]).spec_ok(after, rolls) by {
        assert(after[entries[i].keep_index as int] == before[entries[i].keep_index as int]);
    }
    assert forall|k: int, d: Dice|
        #![trigger pm[(k, d)]]
        0 <= k < after.len() - 1 && d.wf() && after[k].spec_n_dice() + d.spec_n_dice()
            == 5 implies spec_pair_recorded(pm, entries, rolls, after, k, d) by {
        assert(after[k] == before[k]);
        assert(spec_pair_recorded(pm, entries, rolls, before, k, d));
    }
}

/// Once the entries of the last keep cover its whole reroll group, they
/// cover every well-formed complementary reroll of that keep.
proof fn lemma_keep_pairs_complete(
    pm: Map<(int, Dice), int>,
    entries: Seq<KeepAndRoll>,
    rolls: Seq<Dice>,
    keeps: Seq<Dice>,
    group: Seq<Dice>,
    rg: int,
)
    requires
        keeps.len() >= 1,
        keeps[keeps.len() - 1].spec_n_dice() + rg == 5,
        forall|d: Dice| d.wf() && d.spec_n_dice() == rg ==> group.contains(d),
        forall|i: int|
            0 <= i < group.len() ==> spec_pair_recorded(
                pm,
                entries,
                rolls,
                keeps,
                keeps.len() - 1,
                (#[trigger] group[i]),
            ),
    ensures
        forall|k: int, d: Dice|
            #![trigger pm[(k, d)]]
            k == keeps.len() - 1 && d.wf() && keeps[k].spec_n_dice() + d.spec_n_dice() == 5
                ==> spec_pair_recorded(pm, entries, rolls, keeps, k, d),
{
    assert forall|k: int, d: Dice|
        #![trigger pm[(k, d)]]
        k == keeps.len() - 1 && d.wf() && keeps[k].spec_n_dice() + d.spec_n_dice()
            == 5 implies spec_pair_recorded(pm, entries, rolls, keeps, k, d) by {
        assert(d.spec_n_dice() == rg);
        assert(group.contains(d));
        let i = choose|i: int| 0 <= i < group.len() && group[i] == d;
        assert(spec_pair_recorded(pm, entries, rolls, keeps, keeps.len() - 1, group[i]));
    }
}

/// Partition the enumerated keeps into six groups by their number of dice.
/// Each group inherits the enumeration's distinctness and, together, the
/// groups hold every well-formed multiset.
#[verifier::rlimit(100)]
fn group_keeps_by_n_dice(keeps_list: &Vec<Dice>) -> (r: Vec<Vec<Dice>>)
    requires
        keeps_list@.len() <= 46656,
        forall|i: int| 0 <= i < keeps_list@.len() ==> (#[trigger] keeps_list@[i]).wf(),
        forall|i: int, j: int|
            0 <= i < j < keeps_list@.len() ==> keeps_list@[i].spec_key()
                < keeps_list@[j].spec_key(),
        forall|d: Dice| d.wf() ==> keeps_list@.contains(d),
    ensures
        r@.len() == 6,
        forall|gi: int, j: int|
            0 <= gi < 6 && 0 <= j < r@[gi]@.len() ==> (#[trigger] r@[gi]@[j]).wf()
                && r@[gi]@[j].spec_n_dice() == gi,
        forall|gi: int, j1: int, j2: int|
            #![trigger r@[gi]@[j1], r@[gi]@[j2]]
            0 <= gi < 6 && 0 <= j1 < j2 < r@[gi]@.len() ==> r@[gi]@[j1] != r@[gi]@[j2],
        forall|d: Dice| d.wf() ==> r@[d.spec_n_dice()]@.contains(d),
        flat_keeps(r@, 6) == keeps_list@.len(),
        r@[0]@.len() >= 1,
{
    let mut keeps_by_n_dice: Vec<Vec<Dice>> = Vec::new();
        let mut g: usize = 0;
        while g < 6
            invariant
                g <= 6,
                keeps_by_n_dice@.len() == g,
                forall|j: int| 0 <= j < g ==> (#[trigger] keeps_by_n_dice@[j])@.len() == 0,
            decreases 6 - g,
        {
            keeps_by_n_dice.push(Vec::new());
            g = g + 1;
        }
        proof {
            lemma_flat_keeps_empty(keeps_by_n_dice@, 6);
        }
        let mut idx: usize = 0;
        while idx < keeps_list.len()
            invariant
                idx <= keeps_list@.len(),
                keeps_list@.len() <= 46656,
                forall|i: int| 0 <= i < keeps_list@.len() ==> (#[trigger] keeps_list@[i]).wf(),
                forall|d: Dice| d.wf() ==> keeps_list@.contains(d),
                forall|i: int, j: int|
                    0 <= i < j < keeps_list@.len() ==> keeps_list@[i].spec_key()
                        < keeps_list@[j].spec_key(),
                keeps_by_n_dice@.len() == 6,
                forall|gi: int, j: int|
                    0 <= gi < 6 && 0 <= j < keeps_by_n_dice@[gi]@.len() ==> (
                    #[trigger] keeps_by_n_dice@[gi]@[j]).wf()
                        && keeps_by_n_dice@[gi]@[j].spec_n_dice() == gi,
                forall|gi: int, j: int|
                    0 <= gi < 6 && 0 <= j < keeps_by_n_dice@[gi]@.len() ==> (
                    #[trigger] keeps_by_n_dice@[gi]@[j]).spec_key() <= (if idx > 0 {
                        keeps_list@[idx - 1].spec_key()
                    } else {
                        -1
                    }),
                forall|gi: int, j1: int, j2: int|
                    #![trigger keeps_by_n_dice@[gi]@[j1], keeps_by_n_dice@[gi]@[j2]]
                    0 <= gi < 6 && 0 <= j1 < j2 < keeps_by_n_dice@[gi]@.len()
                        ==> keeps_by_n_dice@[gi]@[j1] != keeps_by_n_dice@[gi]@[j2],
                flat_keeps(keeps_by_n_dice@, 6) == idx,
                forall|j: int|
                    0 <= j < idx ==> keeps_by_n_dice@[(#[trigger] keeps_list@[j]).spec_n_dice()]@
                        .contains(keeps_list@[j]),
            decreases keeps_list@.len() - idx,
        {
            let d = keeps_list[idx];
            let nd = d.n_dice() as usize;
            let ghost before = keeps_by_n_dice@;
            let dst = &mut keeps_by_n_dice[nd];
            dst.push(d);
            proof {
                assert(keeps_by_n_dice@ =~= before.update(nd as int, keeps_by_n_dice@[nd as int]));
                lemma_flat_keeps_grow(before, keeps_by_n_dice@, nd as int, 6, 1);
                assert(keeps_by_n_dice@[nd as int]@[keeps_by_n_dice@[nd as int]@.len() - 1] == d);
                assert forall|j: int|
                    0 <= j < idx + 1 implies keeps_by_n_dice@[(
                #[trigger] keeps_list@[j]).spec_n_dice()]@.contains(keeps_list@[j]) by {
                    if j < idx {
                        let gj = keeps_list@[j].spec_n_dice();
                        let k = choose|k: int|
                            0 <= k < before[gj]@.len() && before[gj]@[k] == keeps_list@[j];
                        assert(keeps_by_n_dice@[gj]@[k] == keeps_list@[j]);
                    }
                }
                assert forall|gi: int, j1: int, j2: int|
                    0 <= gi < 6 && 0 <= j1 < j2 < keeps_by_n_dice@[gi]@.len()
                        implies keeps_by_n_dice@[gi]@[j1] != keeps_by_n_dice@[gi]@[j2] by {
                    if gi == nd as int && j2 == keeps_by_n_dice@[gi]@.len() - 1 {
                        assert(keeps_by_n_dice@[gi]@[j1] == before[gi]@[j1]);
                        assert(before[gi]@[j1].spec_key() <= (if idx > 0 {
                            keeps_list@[idx - 1].spec_key()
                        } else {
                            -1
                        }));
                        if idx > 0 {
                            assert(keeps_list@[idx - 1].spec_key()
                                < keeps_list@[idx as int].spec_key());
                        }
                        assert(before[gi]@[j1].spec_key() < d.spec_key());
                    } else {
                        assert(keeps_by_n_dice@[gi]@[j1].spec_key() == before[gi]@[j1].spec_key());
                        assert(keeps_by_n_dice@[gi]@[j2].spec_key() == before[gi]@[j2].spec_key());
                    }
                }
                assert forall|gi: int, j: int|
                    0 <= gi < 6 && 0 <= j < keeps_by_n_dice@[gi]@.len() implies (
                #[trigger] keeps_by_n_dice@[gi]@[j]).spec_key() <= keeps_list@[idx as int].spec_key() by {
                    if !(gi == nd as int && j == keeps_by_n_dice@[gi]@.len() - 1) {
                        assert(keeps_by_n_dice@[gi]@[j] == before[gi]@[j]);
                        if idx > 0 {
                            assert(keeps_list@[idx - 1].spec_key()
                                < keeps_list@[idx as int].spec_key());
                        }
                    }
                }
            }
            idx = idx + 1;
        }
        proof {
            let ghost empty_dice = (Dice { ones: 0, twos: 0, threes: 0, fours: 0, fives: 0, sixes: 0 });
            assert(empty_dice.spec_n_dice() == 0);
            assert(empty_dice.wf());
            assert(keeps_list@.contains(empty_dice));
            let j0 = choose|j: int| 0 <= j < keeps_list@.len() && keeps_list@[j] == empty_dice;
            assert(keeps_by_n_dice@[0]@.contains(empty_dice));
            let k0 = choose|k: int|
                0 <= k < keeps_by_n_dice@[0]@.len() && keeps_by_n_dice@[0]@[k] == empty_dice;
            assert(keeps_by_n_dice@[0]@.len() >= 1);
            assert forall|d: Dice| d.wf() implies keeps_by_n_dice@[d.spec_n_dice()]@.contains(
                d,
            ) by {
                assert(keeps_list@.contains(d));
                let j = choose|j: int| 0 <= j < keeps_list@.len() && keeps_list@[j] == d;
                assert(keeps_by_n_dice@[(keeps_list@[j]).spec_n_dice()]@.contains(keeps_list@[j]));
            }
        }
        keeps_by_n_dice
}

impl KeepAndRoll {
    /// Build the whole keep/roll table: for every number of kept dice, pair
    /// every keep of that size with every reroll of the remaining dice,
    /// combine the two into the final roll, deduplicate the rolls into one
    /// canonical list, and record each pair's exact reroll probability.
    #[verifier::rlimit(100)]
    pub fn all() -> (r: KeepAndRollData)
        ensures
            r.wf(),
            forall|d: Dice|
                d.wf() && d.spec_n_dice() == 5 ==> r.all_rolls@.contains(d),
            r.entry_of_roll@.len() == r.all_rolls@.len(),
            forall|rix: int|
                0 <= rix < r.all_rolls@.len() ==> 0 <= (#[trigger] r.entry_of_roll@[rix])
                    && r.entry_of_roll@[rix] < r.keeps_and_rolls@.len() && r.keeps_and_rolls@[r.entry_of_roll@[rix]].roll_index
                    == rix,
    {
        let keeps_list = Dice::all_keeps();
        let keeps_by_n_dice = group_keeps_by_n_dice(&keeps_list);
        let ghost total = flat_keeps(keeps_by_n_dice@, 6);
        let mut keeps_and_rolls: Vec<KeepAndRoll> = Vec::new();
        let mut all_rolls: Vec<Dice> = Vec::new();
        let ghost mut entry_of_roll: Seq<int> = Seq::<int>::empty();
        let ghost mut keeps_flat: Seq<Dice> = Seq::<Dice>::empty();
        let ghost mut pair_map: Map<(int, Dice), int> = Map::<(int, Dice), int>::empty();
        let mut n_keeps: usize = 0;
        let mut keep_count: usize = 0;
        while keep_count < 6
            invariant
                keep_count <= 6,
                keeps_by_n_dice@.len() == 6,
                forall|gi: int, j: int|
                    0 <= gi < 6 && 0 <= j < keeps_by_n_dice@[gi]@.len() ==> (
                    #[trigger] keeps_by_n_dice@[gi]@[j]).wf()
                        && keeps_by_n_dice@[gi]@[j].spec_n_dice() == gi,
                total == flat_keeps(keeps_by_n_dice@, 6),
                total <= 46656,
                n_keeps == flat_keeps(keeps_by_n_dice@, keep_count as int),
                forall|i: int|
                    0 <= i < all_rolls@.len() ==> (#[trigger] all_rolls@[i]).wf()
                        && all_rolls@[i].spec_n_dice() == 5,
                forall|i: int, j: int|
                    0 <= i < j < all_rolls@.len() ==> all_rolls@[i] != all_rolls@[j],
                forall|i: int|
                    0 <= i < keeps_and_rolls@.len() ==> (#[trigger] keeps_and_rolls@[i]).spec_ok(
                        keeps_flat,
                        all_rolls@,
                    ),
                forall|i: int, j: int|
                    #![trigger keeps_and_rolls@[i], keeps_and_rolls@[j]]
                    0 <= i < j < keeps_and_rolls@.len() ==> (keeps_and_rolls@[i].keep_index
                        != keeps_and_rolls@[j].keep_index || keeps_and_rolls@[i].roll_index
                        != keeps_and_rolls@[j].roll_index),
                entry_of_roll.len() == all_rolls@.len(),
                forall|rix: int|
                    0 <= rix < all_rolls@.len() ==> 0 <= (#[trigger] entry_of_roll[rix])
                        && entry_of_roll[rix] < keeps_and_rolls@.len()
                        && keeps_and_rolls@[entry_of_roll[rix]].roll_index == rix,
                keeps_flat.len() == n_keeps,
                forall|i: int| 0 <= i < keeps_flat.len() ==> (#[trigger] keeps_flat[i]).wf(),
                forall|i: int|
                    0 <= i < keeps_flat.len() ==> (#[trigger] keeps_flat[i]).spec_n_dice()
                        < keep_count,
                forall|i1: int, i2: int|
                    0 <= i1 < i2 < keeps_flat.len() ==> keeps_flat[i1] != keeps_flat[i2],
                forall|d: Dice|
                    d.wf() && d.spec_n_dice() < keep_count ==> keeps_flat.contains(d),
                forall|k: int, d: Dice|
                    #![trigger pair_map[(k, d)]]
                    0 <= k < n_keeps && d.wf() && keeps_flat[k].spec_n_dice() + d.spec_n_dice()
                        == 5 ==> spec_pair_recorded(
                        pair_map,
                        keeps_and_rolls@,
                        all_rolls@,
                        keeps_flat,
                        k,
                        d,
                    ),
                keeps_by_n_dice@[0]@.len() >= 1,
                forall|gi: int, j1: int, j2: int|
                    #![trigger keeps_by_n_dice@[gi]@[j1], keeps_by_n_dice@[gi]@[j2]]
                    0 <= gi < 6 && 0 <= j1 < j2 < keeps_by_n_dice@[gi]@.len()
                        ==> keeps_by_n_dice@[gi]@[j1] != keeps_by_n_dice@[gi]@[j2],
                forall|d: Dice| d.wf() ==> keeps_by_n_dice@[d.spec_n_dice()]@.contains(d),
                keep_count >= 1 ==> (forall|d: Dice|
                    d.wf() && d.spec_n_dice() == 5 ==> all_rolls@.contains(d)),
            decreases 6 - keep_count,
        {
            let n_in_group = keeps_by_n_dice[keep_count].len();
            let mut ki: usize = 0;
            while ki < n_in_group
                invariant
                    keep_count < 6,
                    ki <= n_in_group,
                    keeps_by_n_dice@.len() == 6,
                    n_in_group == keeps_by_n_dice@[keep_count as int]@.len(),
                    forall|gi: int, j: int|
                        0 <= gi < 6 && 0 <= j < keeps_by_n_dice@[gi]@.len() ==> (
                        #[trigger] keeps_by_n_dice@[gi]@[j]).wf()
                            && keeps_by_n_dice@[gi]@[j].spec_n_dice() == gi,
                    forall|gi: int, j1: int, j2: int|
                        #![trigger keeps_by_n_dice@[gi]@[j1], keeps_by_n_dice@[gi]@[j2]]
                        0 <= gi < 6 && 0 <= j1 < j2 < keeps_by_n_dice@[gi]@.len()
                            ==> keeps_by_n_dice@[gi]@[j1] != keeps_by_n_dice@[gi]@[j2],
                    forall|d: Dice| d.wf() ==> keeps_by_n_dice@[d.spec_n_dice()]@.contains(d),
                    total == flat_keeps(keeps_by_n_dice@, 6),
                    total <= 46656,
                    n_keeps == flat_keeps(keeps_by_n_dice@, keep_count as int) + ki,
                    forall|i: int|
                        0 <= i < all_rolls@.len() ==> (#[trigger] all_rolls@[i]).wf()
                            && all_rolls@[i].spec_n_dice() == 5,
                    forall|i: int, j: int|
                        0 <= i < j < all_rolls@.len() ==> all_rolls@[i] != all_rolls@[j],
                    forall|i: int|
                        0 <= i < keeps_and_rolls@.len() ==> (
                        #[trigger] keeps_and_rolls@[i]).spec_ok(keeps_flat, all_rolls@),
                    forall|i: int, j: int|
                        #![trigger keeps_and_rolls@[i], keeps_and_rolls@[j]]
                        0 <= i < j < keeps_and_rolls@.len() ==> (keeps_and_rolls@[i].keep_index
                            != keeps_and_rolls@[j].keep_index || keeps_and_rolls@[i].roll_index
                            != keeps_and_rolls@[j].roll_index),
                    entry_of_roll.len() == all_rolls@.len(),
                    forall|rix: int|
                        0 <= rix < all_rolls@.len() ==> 0 <= (#[trigger] entry_of_roll[rix])
                            && entry_of_roll[rix] < keeps_and_rolls@.len()
                            && keeps_and_rolls@[entry_of_roll[rix]].roll_index == rix,
                    keeps_flat.len() == n_keeps,
                    forall|i: int| 0 <= i < keeps_flat.len() ==> (#[trigger] keeps_flat[i]).wf(),
                    forall|i: int|
                        0 <= i < flat_keeps(keeps_by_n_dice@, keep_count as int) ==> (
                        #[trigger] keeps_flat[i]).spec_n_dice() < keep_count,
                    forall|j: int|
                        0 <= j < ki ==> keeps_flat[flat_keeps(keeps_by_n_dice@, keep_count as int)
                            + j] == (#[trigger] keeps_by_n_dice@[keep_count as int]@[j]),
                    forall|i1: int, i2: int|
                        0 <= i1 < i2 < keeps_flat.len() ==> keeps_flat[i1] != keeps_flat[i2],
                    forall|d: Dice|
                        d.wf() && d.spec_n_dice() < keep_count ==> keeps_flat.contains(d),
                    forall|k: int, d: Dice|
                        #![trigger pair_map[(k, d)]]
                        0 <= k < n_keeps && d.wf() && keeps_flat[k].spec_n_dice() + d.spec_n_dice()
                            == 5 ==> spec_pair_recorded(
                            pair_map,
                            keeps_and_rolls@,
                            all_rolls@,
                            keeps_flat,
                            k,
                            d,
                        ),
                    (keep_count >= 1 || ki >= 1) ==> (forall|d: Dice|
                        d.wf() && d.spec_n_dice() == 5 ==> all_rolls@.contains(d)),
                decreases n_in_group - ki,
            {
                proof {
                    assert(flat_keeps(keeps_by_n_dice@, keep_count as int + 1) == flat_keeps(
                        keeps_by_n_dice@,
                        keep_count as int,
                    ) + n_in_group);
                    lemma_flat_keeps_mono(keeps_by_n_dice@, keep_count as int + 1, 6);
                }
                let keep = keeps_by_n_dice[keep_count][ki];
                n_keeps = n_keeps + 1;
                let ghost keeps_flat_before = keeps_flat;
                proof {
                    keeps_flat = keeps_flat.push(keep);
                    lemma_flat_keeps_mono(keeps_by_n_dice@, 0, keep_count as int);
                    assert(keep == keeps_by_n_dice@[keep_count as int]@[ki as int]);
                    lemma_keep_appended(
                        keeps_flat_before,
                        keeps_flat,
                        keep,
                        keeps_by_n_dice@[keep_count as int]@,
                        flat_keeps(keeps_by_n_dice@, keep_count as int),
                        ki as int,
                        keep_count as int,
                        keeps_and_rolls@,
                        all_rolls@,
                        pair_map,
                    );
                }
                let ghost block_start = keeps_and_rolls@.len() as int;
                let reroll_group = 5 - keep_count;
                let n_rerolls = keeps_by_n_dice[reroll_group].len();
                let mut ri: usize = 0;
                while ri < n_rerolls
                    invariant
                        keep_count < 6,
                        ri <= n_rerolls,
                        keeps_by_n_dice@.len() == 6,
                        reroll_group == 5 - keep_count,
                        n_rerolls == keeps_by_n_dice@[reroll_group as int]@.len(),
                        keep.wf(),
                        keep.spec_n_dice() == keep_count,
                        n_keeps >= 1,
                        keeps_flat.len() == n_keeps,
                        keeps_flat[n_keeps - 1] == keep,
                        block_start >= 0,
                        forall|gi: int, j: int|
                            0 <= gi < 6 && 0 <= j < keeps_by_n_dice@[gi]@.len() ==> (
                            #[trigger] keeps_by_n_dice@[gi]@[j]).wf()
                                && keeps_by_n_dice@[gi]@[j].spec_n_dice() == gi,
                        forall|gi: int, j1: int, j2: int|
                            #![trigger keeps_by_n_dice@[gi]@[j1], keeps_by_n_dice@[gi]@[j2]]
                            0 <= gi < 6 && 0 <= j1 < j2 < keeps_by_n_dice@[gi]@.len()
                                ==> keeps_by_n_dice@[gi]@[j1] != keeps_by_n_dice@[gi]@[j2],
                        forall|i: int|
                            0 <= i < all_rolls@.len() ==> (#[trigger] all_rolls@[i]).wf()
                                && all_rolls@[i].spec_n_dice() == 5,
                        forall|i: int, j: int|
                            0 <= i < j < all_rolls@.len() ==> all_rolls@[i] != all_rolls@[j],
                        forall|i: int|
                            0 <= i < keeps_and_rolls@.len() ==> (
                            #[trigger] keeps_and_rolls@[i]).spec_ok(keeps_flat, all_rolls@),
                        entry_of_roll.len() == all_rolls@.len(),
                        forall|rix: int|
                            0 <= rix < all_rolls@.len() ==> 0 <= (#[trigger] entry_of_roll[rix])
                                && entry_of_roll[rix] < keeps_and_rolls@.len()
                                && keeps_and_rolls@[entry_of_roll[rix]].roll_index == rix,
                        keeps_and_rolls@.len() == block_start + ri,
                        forall|e: int|
                            0 <= e < block_start ==> (#[trigger] keeps_and_rolls@[e]).keep_index
                                < n_keeps - 1,
                        forall|i: int|
                            0 <= i < ri ==> #[trigger] spec_block_row(
                                keeps_and_rolls@,
                                all_rolls@,
                                keeps_by_n_dice@[reroll_group as int]@,
                                keep,
                                block_start,
                                n_keeps - 1,
                                i,
                            ),
                        forall|i: int, j: int|
                            #![trigger keeps_and_rolls@[i], keeps_and_rolls@[j]]
                            0 <= i < j < keeps_and_rolls@.len() ==> (keeps_and_rolls@[i].keep_index
                                != keeps_and_rolls@[j].keep_index
                                || keeps_and_rolls@[i].roll_index
                                != keeps_and_rolls@[j].roll_index),
                        forall|k: int, d: Dice|
                            #![trigger pair_map[(k, d)]]
                            0 <= k < n_keeps - 1 && d.wf() && keeps_flat[k].spec_n_dice()
                                + d.spec_n_dice() == 5 ==> spec_pair_recorded(
                                pair_map,
                                keeps_and_rolls@,
                                all_rolls@,
                                keeps_flat,
                                k,
                                d,
                            ),
                        forall|i: int|
                            0 <= i < ri ==> spec_pair_recorded(
                                pair_map,
                                keeps_and_rolls@,
                                all_rolls@,
                                keeps_flat,
                                n_keeps - 1,
                                (#[trigger] keeps_by_n_dice@[reroll_group as int]@[i]),
                            ),
                        forall|rr: int|
                            0 <= rr < ri ==> all_rolls@.contains(
                                Dice::spec_combine(
                                    keep,
                                    (#[trigger] keeps_by_n_dice@[reroll_group as int]@[rr]),
                                ),
                            ),
                        (keep_count >= 1 || ki >= 1) ==> (forall|d: Dice|
                            d.wf() && d.spec_n_dice() == 5 ==> all_rolls@.contains(d)),
                    decreases n_rerolls - ri,
                {
                    let ghost rolls_before = all_rolls@;
                    let reroll = keeps_by_n_dice[reroll_group][ri];
                    let roll = Dice::combine(keep, reroll);
                    let mut j: usize = 0;
                    let mut found: usize = all_rolls.len();
                    while j < all_rolls.len()
                        invariant
                            j <= all_rolls@.len(),
                            found == all_rolls@.len() || found < j,
                            found == all_rolls@.len() ==> forall|jj: int|
                                0 <= jj < j ==> all_rolls@[jj] != roll,
                            found < all_rolls@.len() ==> all_rolls@[found as int] == roll,
                        decreases all_rolls@.len() - j,
                    {
                        if found == all_rolls.len() && all_rolls[j] == roll {
                            found = j;
                        }
                        j = j + 1;
                    }
                    let roll_index = if found == all_rolls.len() {
                        all_rolls.push(roll);
                        proof {
                            entry_of_roll = entry_of_roll.push(keeps_and_rolls@.len() as int);
                        }
                        all_rolls.len() - 1
                    } else {
                        found
                    };
                    let numerator = reroll.probability_numerator();
                    let denominator = reroll.probability_denominator();
                    let entry = KeepAndRoll { keep_index: n_keeps - 1, roll_index, numerator, denominator };
                    proof {
                        assert(Dice::spec_combine(keep, reroll) == all_rolls@[roll_index as int]);
                        assert(Dice::spec_subset(keep, all_rolls@[roll_index as int]));
                        assert(Dice::spec_diff(all_rolls@[roll_index as int], keep) == reroll);
                        assert(entry.spec_ok(keeps_flat, all_rolls@));
                        assert forall|d: Dice| rolls_before.contains(d) implies all_rolls@
                            .contains(d) by {
                            let j = choose|j: int|
                                0 <= j < rolls_before.len() && rolls_before[j] == d;
                            assert(all_rolls@[j] == d);
                        }
                        assert(all_rolls@.contains(roll)) by {
                            assert(all_rolls@[roll_index as int] == roll);
                        }
                    }
                    let ghost entries_before = keeps_and_rolls@;
                    let ghost pair_map_before = pair_map;
                    keeps_and_rolls.push(entry);
                    proof {
                        pair_map = pair_map.insert(((n_keeps - 1) as int, reroll), entries_before.len() as int);
                        assert forall|rix: int|
                            0 <= rix < all_rolls@.len() implies 0 <= (
                        #[trigger] entry_of_roll[rix]) && entry_of_roll[rix]
                            < keeps_and_rolls@.len() && keeps_and_rolls@[entry_of_roll[rix]].roll_index
                            == rix by {
                            if rix < rolls_before.len() {
                                assert(keeps_and_rolls@[entry_of_roll[rix]]
                                    == entries_before[entry_of_roll[rix]]);
                            } else {
                                assert(entry_of_roll[rix] == entries_before.len());
                                assert(keeps_and_rolls@[entries_before.len() as int] == entry);
                            }
                        }
                        // the entries of this keep all point at distinct rolls
                        assert forall|e: int|
                            block_start <= e < entries_before.len() implies entries_before[e].roll_index
                            != roll_index by {
                            let i = e - block_start;
                            assert(spec_block_row(
                                entries_before,
                                rolls_before,
                                keeps_by_n_dice@[reroll_group as int]@,
                                keep,
                                block_start,
                                n_keeps - 1,
                                i,
                            ));
                            assert(entries_before[e].spec_ok(keeps_flat, rolls_before));
                            assert(all_rolls@[entries_before[e].roll_index as int]
                                == rolls_before[entries_before[e].roll_index as int]);
                            assert(all_rolls@[entries_before[e].roll_index as int]
                                == Dice::spec_combine(
                                keep,
                                keeps_by_n_dice@[reroll_group as int]@[i],
                            ));
                            if entries_before[e].roll_index == roll_index {
                                assert(Dice::spec_combine(
                                    keep,
                                    keeps_by_n_dice@[reroll_group as int]@[i],
                                ) == Dice::spec_combine(keep, reroll));
                                assert(keeps_by_n_dice@[reroll_group as int]@[i].wf());
                                assert(keeps_by_n_dice@[reroll_group as int]@[i] == reroll);
                                assert(reroll == keeps_by_n_dice@[reroll_group as int]@[
                                    ri as int
                                ]);
                                assert(false);
                            }
                        }
                        assert forall|i2: int, j2: int|
                            0 <= i2 < j2 < keeps_and_rolls@.len() implies (keeps_and_rolls@[i2].keep_index
                            != keeps_and_rolls@[j2].keep_index || keeps_and_rolls@[i2].roll_index
                            != keeps_and_rolls@[j2].roll_index) by {
                            assert(keeps_and_rolls@[i2] == entries_before[i2]);
                            if j2 == keeps_and_rolls@.len() - 1 {
                                if i2 >= block_start {
                                    assert(entries_before[i2].roll_index != roll_index);
                                }
                            } else {
                                assert(keeps_and_rolls@[j2] == entries_before[j2]);
                            }
                        }
                        // this pair's entry is recorded; earlier pairs keep theirs
                        assert(pair_map[((n_keeps - 1) as int, reroll)]
                            == entries_before.len() as int);
                        assert(spec_pair_recorded(
                            pair_map,
                            keeps_and_rolls@,
                            all_rolls@,
                            keeps_flat,
                            n_keeps - 1,
                            reroll,
                        ));
                        assert forall|k: int, d: Dice|
                            #![trigger pair_map[(k, d)]]
                            0 <= k < n_keeps - 1 && d.wf() && keeps_flat[k].spec_n_dice()
                                + d.spec_n_dice() == 5 implies spec_pair_recorded(
                            pair_map,
                            keeps_and_rolls@,
                            all_rolls@,
                            keeps_flat,
                            k,
                            d,
                        ) by {
                            assert(spec_pair_recorded(
                                pair_map_before,
                                entries_before,
                                rolls_before,
                                keeps_flat,
                                k,
                                d,
                            ));
                            let e = pair_map_before[(k, d)];
                            assert(pair_map[(k, d)] == e);
                            assert(keeps_and_rolls@[e] == entries_before[e]);
                            assert(all_rolls@[entries_before[e].roll_index as int]
                                == rolls_before[entries_before[e].roll_index as int]);
                        }
                        assert forall|i: int|
                            0 <= i < ri + 1 implies spec_pair_recorded(
                            pair_map,
                            keeps_and_rolls@,
                            all_rolls@,
                            keeps_flat,
                            n_keeps - 1,
                            (#[trigger] keeps_by_n_dice@[reroll_group as int]@[i]),
                        ) by {
                            if i < ri {
                                assert(reroll == keeps_by_n_dice@[reroll_group as int]@[
                                    ri as int
                                ]);
                                assert(keeps_by_n_dice@[reroll_group as int]@[i] != reroll);
                                assert(spec_pair_recorded(
                                    pair_map_before,
                                    entries_before,
                                    rolls_before,
                                    keeps_flat,
                                    n_keeps - 1,
                                    keeps_by_n_dice@[reroll_group as int]@[i],
                                ));
                                let e = pair_map_before[(
                                    (n_keeps - 1) as int,
                                    keeps_by_n_dice@[reroll_group as int]@[i],
                                )];
                                assert(pair_map[(
                                    (n_keeps - 1) as int,
                                    keeps_by_n_dice@[reroll_group as int]@[i],
                                )] == e);
                                assert(keeps_and_rolls@[e] == entries_before[e]);
                                assert(all_rolls@[entries_before[e].roll_index as int]
                                    == rolls_before[entries_before[e].roll_index as int]);
                            }
                        }
                        assert(keeps_and_rolls@[block_start + ri].keep_index == n_keeps - 1);
                        assert(all_rolls@[keeps_and_rolls@[block_start + ri].roll_index as int]
                            == Dice::spec_combine(
                            keep,
                            keeps_by_n_dice@[reroll_group as int]@[ri as int],
                        ));
                        assert forall|i: int|
                            0 <= i < ri + 1 implies #[trigger] spec_block_row(
                            keeps_and_rolls@,
                            all_rolls@,
                            keeps_by_n_dice@[reroll_group as int]@,
                            keep,
                            block_start,
                            n_keeps - 1,
                            i,
                        ) by {
                            if i < ri {
                                assert(spec_block_row(
                                    entries_before,
                                    rolls_before,
                                    keeps_by_n_dice@[reroll_group as int]@,
                                    keep,
                                    block_start,
                                    n_keeps - 1,
                                    i,
                                ));
                                assert(keeps_and_rolls@[block_start + i] == entries_before[
                                    block_start + i
                                ]);
                                assert(entries_before[block_start + i].spec_ok(
                                    keeps_flat,
                                    rolls_before,
                                ));
                                assert(all_rolls@[entries_before[block_start + i].roll_index as int]
                                    == rolls_before[entries_before[block_start
                                    + i].roll_index as int]);
                            } else {
                                assert(keeps_and_rolls@[block_start + i] == entry);
                                assert(keeps_by_n_dice@[reroll_group as int]@[i] == reroll);
                            }
                        }
                    }
                    ri = ri + 1;
                }
                proof {
                    if keep_count == 0 {
                        assert forall|d: Dice| d.wf() && d.spec_n_dice() == 5 implies all_rolls@
                            .contains(d) by {
                            assert(keeps_by_n_dice@[5]@.contains(d));
                            let rr = choose|rr: int|
                                0 <= rr < keeps_by_n_dice@[5]@.len() && keeps_by_n_dice@[5]@[rr]
                                    == d;
                            assert(all_rolls@.contains(
                                Dice::spec_combine(keep, keeps_by_n_dice@[5]@[rr]),
                            ));
                            assert(Dice::spec_combine(keep, d) == d);
                        }
                    }
                    // every complementary reroll of the keep just processed is
                    // now paired with it
                    assert forall|d: Dice|
                        d.wf() && d.spec_n_dice() == reroll_group implies keeps_by_n_dice@[
                        reroll_group as int
                    ]@.contains(d) by {
                        assert(keeps_by_n_dice@[d.spec_n_dice()]@.contains(d));
                    }
                    assert(keeps_flat[n_keeps - 1] == keep);
                    lemma_keep_pairs_complete(
                        pair_map,
                        keeps_and_rolls@,
                        all_rolls@,
                        keeps_flat,
                        keeps_by_n_dice@[reroll_group as int]@,
                        reroll_group as int,
                    );
                }
                ki = ki + 1;
            }
            proof {
                assert(flat_keeps(keeps_by_n_dice@, keep_count as int + 1) == flat_keeps(
                    keeps_by_n_dice@,
                    keep_count as int,
                ) + n_in_group);
                let base = flat_keeps(keeps_by_n_dice@, keep_count as int);
                assert forall|d: Dice|
                    d.wf() && d.spec_n_dice() < keep_count + 1 implies keeps_flat.contains(d) by {
                    if d.spec_n_dice() == keep_count {
                        assert(keeps_by_n_dice@[d.spec_n_dice()]@.contains(d));
                        let j = choose|j: int|
                            0 <= j < keeps_by_n_dice@[keep_count as int]@.len()
                                && keeps_by_n_dice@[keep_count as int]@[j] == d;
                        assert(keeps_flat[base + j] == keeps_by_n_dice@[keep_count as int]@[j]);
                    }
                }
                assert forall|i: int|
                    0 <= i < keeps_flat.len() implies (#[trigger] keeps_flat[i]).spec_n_dice()
                    < keep_count + 1 by {
                    if i >= base {
                        assert(keeps_flat[i] == keeps_by_n_dice@[keep_count as int]@[i - base]);
                    }
                }
            }
            keep_count = keep_count + 1;
        }
        let n_rolls = all_rolls.len();
        KeepAndRollData {
            keeps_and_rolls,
            all_rolls,
            n_keeps,
            n_rolls,
            keeps: Ghost(keeps_flat),
            entry_of_roll: Ghost(entry_of_roll),
            entry_of_pair: Ghost(pair_map),
        }
    }
}

proof fn lemma_pow6_pos(n: nat)
    ensures
        pow6(n) >= 1,
    decreases n,
{
    if n > 0 {
        lemma_pow6_pos((n - 1) as nat);
    }
}

/// Setting the count of face `f` on a multiset whose faces from `f` upward
/// are absent appends one base-6 digit: the key grows by count · 6^(f-1),
/// and the old key lies below 6^(f-1).
proof fn lemma_with_face_key(d: Dice, f: int, c: u8)
    requires
        1 <= f <= 6,
        d.wf(),
        d.spec_tail_zero(f),
        c <= 5,
    ensures
        d.spec_with_face(f, c).spec_key() == d.spec_key() + c * pow6((f - 1) as nat),
        d.spec_key() < pow6((f - 1) as nat),
        d.spec_with_face(f, c).spec_n_dice() == d.spec_n_dice() + c,
        d.spec_with_face(f, c).spec_tail_zero(f + 1),
{
    reveal_with_fuel(pow6, 7);
    assert(pow6(0) == 1 && pow6(1) == 6 && pow6(2) == 36 && pow6(3) == 216 && pow6(4) == 1296
        && pow6(5) == 7776);
    if f == 1 {
        assert(d.spec_with_face(f, c).spec_key() == d.spec_key() + c * 1);
        assert(c * pow6((f - 1) as nat) == c * 1);
    } else if f == 2 {
        assert(d.spec_with_face(f, c).spec_key() == d.spec_key() + c * 6);
        assert(c * pow6((f - 1) as nat) == c * 6);
    } else if f == 3 {
        assert(d.spec_with_face(f, c).spec_key() == d.spec_key() + c * 36);
        assert(c * pow6((f - 1) as nat) == c * 36);
    } else if f == 4 {
        assert(d.spec_with_face(f, c).spec_key() == d.spec_key() + c * 216);
        assert(c * pow6((f - 1) as nat) == c * 216);
    } else if f == 5 {
        assert(d.spec_with_face(f, c).spec_key() == d.spec_key() + c * 1296);
        assert(c * pow6((f - 1) as nat) == c * 1296);
    } else {
        assert(d.spec_with_face(f, c).spec_key() == d.spec_key() + c * 7776);
        assert(c * pow6((f - 1) as nat) == c * 7776);
    }
}

/// A multiset whose faces above `f` are absent is rebuilt from its own base
/// (face `f` zeroed) by restoring the count of face `f`.
proof fn lemma_face_reconstruct(d: Dice, f: int)
    requires
        1 <= f <= 6,
        d.spec_tail_zero(f + 1),
    ensures
        d == d.spec_with_face(f, 0).spec_with_face(f, d.spec_face(f)),
        d.spec_with_face(f, 0).spec_tail_zero(f),
        d.spec_with_face(f, 0).spec_n_dice() == d.spec_n_dice() - d.spec_face(f),
{
}

/// In a sequence with strictly ascending keys, the key at position i is at
/// least i.
proof fn lemma_key_ge_index(s: Seq<Dice>, i: int)
    requires
        0 <= i < s.len(),
        forall|a: int, b: int| 0 <= a < b < s.len() ==> s[a].spec_key() < s[b].spec_key(),
    ensures
        s[i].spec_key() >= i,
    decreases i,
{
    if i > 0 {
        lemma_key_ge_index(s, i - 1);
        assert(s[i - 1].spec_key() < s[i].spec_key());
    }
}

} // verus!
