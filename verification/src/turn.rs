use crate::category::Category;
use crate::category::CategorySet;
use crate::dice::Dice;
use vstd::prelude::*;

verus! {

/// One game state: the categories already scored and the upper-section
/// running score, clamped to the bonus threshold 63. Any upper score at or
/// above 63 behaves identically from here on, so higher values collapse to
/// 63 at construction.
#[derive(Clone, Copy, PartialEq, Eq, Structural)]
pub struct Turn {
    pub used_categories: CategorySet,
    pub upper_category_score: u8,
}

impl Turn {
    pub const MAX_UPPER_CATEGORY_SCORE: u8 = 63;

    pub const NUM_UPPER_CATEGORY_SCORES: u8 = 64;

    pub const TOTAL_TURNS: u32 = 524288;

    pub open spec fn wf(self) -> bool {
        self.used_categories.0 < 8192 && self.upper_category_score <= 63
    }

    /// What `new` builds: the clamp is the whole of its work.
    pub open spec fn spec_new(used_categories: CategorySet, upper_category_score: u8) -> Turn {
        Turn {
            used_categories,
            upper_category_score: if upper_category_score > 63 {
                63
            } else {
                upper_category_score
            },
        }
    }

    /// The dense index of this state: 64 per category set, one per clamped
    /// upper score.
    pub open spec fn spec_as_int(self) -> int {
        64 * self.used_categories.0 + self.upper_category_score
    }

    /// The upper-section bonus this state has earned: 35 once the upper
    /// running score has reached 63, nothing otherwise. For a state with all
    /// categories used this is the entire remaining value of the game.
    pub open spec fn spec_upper_bonus(self) -> int {
        if self.upper_category_score >= 63 {
            35
        } else {
            0
        }
    }

    /// The state after scoring `roll` in `category`, paired with the
    /// immediate score: the category becomes used, and an upper category
    /// adds its score to the upper running total.
    pub open spec fn spec_successor(self, category: Category, roll: Dice) -> Turn {
        let raw: int = if category.spec_is_upper() {
            self.upper_category_score + category.spec_score(roll)
        } else {
            self.upper_category_score as int
        };
        Turn {
            used_categories: self.used_categories.spec_set(category),
            upper_category_score: if raw > 63 {
                63
            } else {
                raw as u8
            },
        }
    }

    pub fn new(used_categories: CategorySet, upper_category_score: u8) -> (r: Turn)
        ensures
            r == Self::spec_new(used_categories, upper_category_score),
            r.upper_category_score <= 63,
    {
        let upper_category_score = if upper_category_score > 63 {
            63
        } else {
            upper_category_score
        };
        Turn { used_categories, upper_category_score }
    }

    pub fn as_int(&self) -> (r: u32)
        ensures
            r == self.spec_as_int(),
    {
        64u32 * (self.used_categories.as_int() as u32) + (self.upper_category_score as u32)
    }

    /// The upper-section bonus; see `spec_upper_bonus`.
    pub fn upper_bonus(&self) -> (r: u8)
        ensures
            r == self.spec_upper_bonus(),
    {
        if self.upper_category_score >= 63 {
            35
        } else {
            0
        }
    }

    /// Score `roll` in `category` at the end of a turn: returns the
    /// immediate score and the successor state.
    pub fn apply_category(&self, category: &Category, roll: &Dice) -> (r: (u8, Turn))
        requires
            self.wf(),
            roll.wf(),
        ensures
            r.0 == category.spec_score(*roll),
            r.1 == self.spec_successor(*category, *roll),
            r.1.wf(),
    {
        let score = category.score(roll);
        let used_categories = self.used_categories.set(category);
        let upper_category_score = if category.is_upper_category() {
            self.upper_category_score + score
        } else {
            self.upper_category_score
        };
        proof {
            let x = self.used_categories.0;
            let k = CategorySet::spec_offset(*category);
            assert(x < 8192 && k <= 12 ==> (x | (1u16 << k)) < 8192) by (bit_vector);
        }
        (score, Turn::new(used_categories, upper_category_score))
    }

    /// Sum of the lengths of the first `k` groups.
    pub open spec fn flat_count(s: Seq<Vec<Turn>>, k: int) -> int
        decreases k,
    {
        if k <= 0 {
            0
        } else {
            Self::flat_count(s, k - 1) + s[k - 1]@.len()
        }
    }

    /// Every state, bucketed by how many categories are used: group g holds
    /// exactly the states with g used categories, 64 per category set, and
    /// the groups together hold all 524288 states. Within a group the
    /// encoded indices ascend strictly, so no state appears twice.
    pub fn all() -> (r: Vec<Vec<Turn>>)
        ensures
            r@.len() == 14,
            forall|g: int, j: int|
                0 <= g < 14 && 0 <= j < r@[g]@.len() ==> (#[trigger] r@[g]@[j]).wf()
                    && CategorySet::spec_num_used(r@[g]@[j].used_categories.0) == g,
            forall|g: int, j1: int, j2: int|
                #![trigger r@[g]@[j1].spec_as_int(), r@[g]@[j2].spec_as_int()]
                0 <= g < 14 && 0 <= j1 < j2 < r@[g]@.len() ==> r@[g]@[j1].spec_as_int()
                    < r@[g]@[j2].spec_as_int(),
            forall|t: Turn| #![trigger CategorySet::spec_num_used(t.used_categories.0)]
                t.wf() ==> r@[CategorySet::spec_num_used(t.used_categories.0)]@.contains(t),
            Self::flat_count(r@, 14) == 524288,
    {
        let mut groups: Vec<Vec<Turn>> = Vec::new();
        let mut g: usize = 0;
        while g < 14
            invariant
                g <= 14,
                groups@.len() == g,
                forall|j: int| 0 <= j < g ==> (#[trigger] groups@[j])@.len() == 0,
            decreases 14 - g,
        {
            groups.push(Vec::new());
            g = g + 1;
        }
        proof {
            lemma_flat_count_empty(groups@, 14);
        }
        let mut cs: u16 = 0;
        while cs < 8192
            invariant
                cs <= 8192,
                groups@.len() == 14,
                forall|g: int, j: int|
                    0 <= g < 14 && 0 <= j < groups@[g]@.len() ==> (#[trigger] groups@[g]@[j]).wf()
                        && CategorySet::spec_num_used(groups@[g]@[j].used_categories.0) == g
                        && groups@[g]@[j].used_categories.0 < cs,
                forall|g: int, j1: int, j2: int|
                    #![trigger groups@[g]@[j1].spec_as_int(), groups@[g]@[j2].spec_as_int()]
                    0 <= g < 14 && 0 <= j1 < j2 < groups@[g]@.len() ==> groups@[g]@[j1].spec_as_int()
                        < groups@[g]@[j2].spec_as_int(),
                forall|t: Turn| #![trigger CategorySet::spec_num_used(t.used_categories.0)]
                    t.wf() && t.used_categories.0 < cs ==> groups@[CategorySet::spec_num_used(
                        t.used_categories.0,
                    )]@.contains(t),
                Self::flat_count(groups@, 14) == 64 * cs,
            decreases 8192 - cs,
        {
            let mut batch: Vec<Turn> = Vec::new();
            let mut score: u8 = 0;
            while score < 64
                invariant
                    score <= 64,
                    cs < 8192,
                    batch@.len() == score,
                    forall|j: int|
                        0 <= j < score ==> (#[trigger] batch@[j]) == Turn::spec_new(
                            CategorySet(cs),
                            j as u8,
                        ),
                decreases 64 - score,
            {
                batch.push(Turn::new(CategorySet(cs), score));
                score = score + 1;
            }
            let set = CategorySet(cs);
            let group = set.num_used_categories() as usize;
            proof {
                lemma_num_used_range(cs);
            }
            let ghost before = groups@;
            let ghost batch_view = batch@;
            let dst = &mut groups[group];
            dst.append(&mut batch);
            proof {
                assert(groups@ =~= before.update(group as int, groups@[group as int]));
                lemma_flat_count_grow(before, groups@, group as int, 14, 64);
                let old_len = before[group as int]@.len() as int;
                assert(groups@[group as int]@ == before[group as int]@ + batch_view);
                assert forall|j1: int, j2: int|
                    0 <= j1 < j2 < groups@[group as int]@.len() implies groups@[group as int]@[j1].spec_as_int()
                    < groups@[group as int]@[j2].spec_as_int() by {
                    if j2 < old_len {
                        assert(before[group as int]@[j1].spec_as_int() < before[group as int]@[j2].spec_as_int());
                    } else if j1 >= old_len {
                        assert(groups@[group as int]@[j1] == batch_view[j1 - old_len]);
                        assert(groups@[group as int]@[j2] == batch_view[j2 - old_len]);
                    } else {
                        assert(groups@[group as int]@[j1] == before[group as int]@[j1]);
                        assert(groups@[group as int]@[j2] == batch_view[j2 - old_len]);
                        assert(before[group as int]@[j1].used_categories.0 < cs);
                        assert(before[group as int]@[j1].upper_category_score <= 63);
                    }
                }
                assert forall|t: Turn|
                    t.wf() && t.used_categories.0 < cs + 1 implies groups@[CategorySet::spec_num_used(
                    t.used_categories.0,
                )]@.contains(t) by {
                    let g = CategorySet::spec_num_used(t.used_categories.0);
                    lemma_num_used_range(t.used_categories.0);
                    if t.used_categories.0 < cs {
                        assert(before[g]@.contains(t));
                        let j = choose|j: int| 0 <= j < before[g]@.len() && before[g]@[j] == t;
                        assert(groups@[g]@[j] == t);
                    } else {
                        assert(t.used_categories.0 == cs);
                        assert(g == group as int);
                        let score = t.upper_category_score as int;
                        assert(batch_view[score] == Turn::spec_new(
                            CategorySet(cs),
                            t.upper_category_score,
                        ));
                        assert(batch_view[score] == t);
                        assert(groups@[g]@[old_len + score] == t);
                    }
                }
            }
            cs = cs + 1;
        }
        groups
    }
}

/// A sequence of empty groups holds no states.
proof fn lemma_flat_count_empty(s: Seq<Vec<Turn>>, k: int)
    requires
        0 <= k <= s.len(),
        forall|j: int| 0 <= j < k ==> (#[trigger] s[j])@.len() == 0,
    ensures
        Turn::flat_count(s, k) == 0,
    decreases k,
{
    if k > 0 {
        lemma_flat_count_empty(s, k - 1);
    }
}

/// Appending d states to one group grows the total count by d.
proof fn lemma_flat_count_grow(s1: Seq<Vec<Turn>>, s2: Seq<Vec<Turn>>, g: int, k: int, d: int)
    requires
        s1.len() == s2.len(),
        0 <= g < s1.len(),
        0 <= k <= s1.len(),
        forall|j: int| 0 <= j < s1.len() && j != g ==> (#[trigger] s2[j])@.len() == s1[j]@.len(),
        s2[g]@.len() == s1[g]@.len() + d,
    ensures
        Turn::flat_count(s2, k) == Turn::flat_count(s1, k) + if g < k {
            d
        } else {
            0
        },
    decreases k,
{
    if k > 0 {
        lemma_flat_count_grow(s1, s2, g, k - 1, d);
    }
}

/// The count of used categories of a 13-bit set lies in 0..=13.
proof fn lemma_num_used_range(s: u16)
    requires
        s < 8192,
    ensures
        0 <= CategorySet::spec_num_used(s) <= 13,
{
    assert(s < 8192 ==> ((s & 1) <= 1 && ((s >> 1) & 1) <= 1 && ((s >> 2) & 1) <= 1 && ((s >> 3)
        & 1) <= 1 && ((s >> 4) & 1) <= 1 && ((s >> 5) & 1) <= 1 && ((s >> 6) & 1) <= 1 && ((s >> 7)
        & 1) <= 1 && ((s >> 8) & 1) <= 1 && ((s >> 9) & 1) <= 1 && ((s >> 10) & 1) <= 1 && ((s
        >> 11) & 1) <= 1 && ((s >> 12) & 1) <= 1 && ((s >> 13) & 1) == 0 && ((s >> 14) & 1) == 0
        && ((s >> 15) & 1) == 0)) by (bit_vector);
}

/// Clamping is idempotent: a state built from any upper score above 63 is
/// the very state built from 63, and encodes to the same index.
pub proof fn lemma_new_clamps(used_categories: CategorySet, upper_category_score: u8)
    requires
        upper_category_score > 63,
    ensures
        Turn::spec_new(used_categories, upper_category_score) == Turn::spec_new(
            used_categories,
            63,
        ),
        Turn::spec_new(used_categories, upper_category_score).spec_as_int() == Turn::spec_new(
            used_categories,
            63,
        ).spec_as_int(),
{
}

/// The state an index decodes to: the inverse of `spec_as_int`.
pub open spec fn spec_turn_of_index(i: u32) -> Turn {
    Turn {
        used_categories: CategorySet((i / 64) as u16),
        upper_category_score: (i % 64) as u8,
    }
}

/// The encoding is a bijection: every index below 524288 is the index of
/// exactly one well-formed state.
pub proof fn lemma_index_bijection(i: u32)
    requires
        i < 524288,
    ensures
        spec_turn_of_index(i).wf(),
        spec_turn_of_index(i).spec_as_int() == i,
        forall|t: Turn| t.wf() && t.spec_as_int() == i ==> t == spec_turn_of_index(i),
{
    assert(i / 64 < 8192);
    assert(64 * (i / 64) + i % 64 == i);
    assert forall|t: Turn| t.wf() && t.spec_as_int() == i implies t == spec_turn_of_index(i) by {
        assert(64 * t.used_categories.0 + t.upper_category_score == i);
        assert(t.used_categories.0 == i / 64 && t.upper_category_score == i % 64);
    }
}

/// Scoring an unused category yields a successor with exactly one more used
/// category: the ground for processing states by descending used-category
/// count, since a state's value then only depends on groups already done.
pub proof fn lemma_successor_uses_more(t: Turn, category: Category, roll: Dice)
    requires
        !t.used_categories.spec_is_set(category),
    ensures
        CategorySet::spec_num_used(t.spec_successor(category, roll).used_categories.0)
            == CategorySet::spec_num_used(t.used_categories.0) + 1,
{
    crate::category::lemma_set_grows(t.used_categories, category);
}

/// A well-formed state's index is always below the table size.
pub proof fn lemma_as_int_in_range(t: Turn)
    requires
        t.wf(),
    ensures
        0 <= t.spec_as_int() < 524288,
{
}

} // verus!
