use crate::dice::Dice;
use vstd::prelude::*;

verus! {

/// The thirteen fixed scoring categories of the game.
#[derive(Clone, Copy, PartialEq, Eq, Structural)]
pub enum Category {
    Ones,
    Twos,
    Threes,
    Fours,
    Fives,
    Sixes,
    Chance,
    ThreeOfAKind,
    FourOfAKind,
    FullHouse,
    SmallStraight,
    LargeStraight,
    Yahtzee,
}

impl Category {
    pub const NUM_CATEGORIES: usize = 13;

    /// The score a hand earns in this category.
    pub open spec fn spec_score(self, dice: Dice) -> int {
        match self {
            Category::Ones => 1 * dice.ones,
            Category::Twos => 2 * dice.twos,
            Category::Threes => 3 * dice.threes,
            Category::Fours => 4 * dice.fours,
            Category::Fives => 5 * dice.fives,
            Category::Sixes => 6 * dice.sixes,
            Category::Chance => dice.spec_sum(),
            Category::ThreeOfAKind => if dice.spec_has_n_of_a_kind(3) {
                dice.spec_sum()
            } else {
                0
            },
            Category::FourOfAKind => if dice.spec_has_n_of_a_kind(4) {
                dice.spec_sum()
            } else {
                0
            },
            Category::FullHouse => if dice.spec_has_full_house() {
                25
            } else {
                0
            },
            Category::SmallStraight => if dice.spec_has_small_straight() {
                30
            } else {
                0
            },
            Category::LargeStraight => if dice.spec_has_large_straight() {
                40
            } else {
                0
            },
            Category::Yahtzee => if dice.spec_has_n_of_a_kind(5) {
                50
            } else {
                0
            },
        }
    }

    pub open spec fn spec_is_upper(self) -> bool {
        match self {
            Category::Ones | Category::Twos | Category::Threes | Category::Fours | Category::Fives
                | Category::Sixes => true,
            _ => false,
        }
    }

    pub fn score(&self, dice: &Dice) -> (r: u8)
        requires
            dice.wf(),
        ensures
            r == self.spec_score(*dice),
            r <= 50,
    {
        match self {
            Category::Ones => 1 * dice.ones,
            Category::Twos => 2 * dice.twos,
            Category::Threes => 3 * dice.threes,
            Category::Fours => 4 * dice.fours,
            Category::Fives => 5 * dice.fives,
            Category::Sixes => 6 * dice.sixes,
            Category::Chance => dice.sum(),
            Category::ThreeOfAKind => {
                if dice.has_n_of_a_kind(&3) {
                    dice.sum()
                } else {
                    0
                }
            },
            Category::FourOfAKind => {
                if dice.has_n_of_a_kind(&4) {
                    dice.sum()
                } else {
                    0
                }
            },
            Category::FullHouse => {
                if dice.has_full_house() {
                    25
                } else {
                    0
                }
            },
            Category::SmallStraight => {
                if dice.has_small_straight() {
                    30
                } else {
                    0
                }
            },
            Category::LargeStraight => {
                if dice.has_large_straight() {
                    40
                } else {
                    0
                }
            },
            Category::Yahtzee => {
                if dice.has_n_of_a_kind(&5) {
                    50
                } else {
                    0
                }
            },
        }
    }

    /// Whether this category counts toward the upper-section bonus.
    pub fn is_upper_category(&self) -> (r: bool)
        ensures
            r == self.spec_is_upper(),
    {
        match self {
            Category::Ones | Category::Twos | Category::Threes | Category::Fours | Category::Fives
                | Category::Sixes => true,
            Category::Chance | Category::ThreeOfAKind | Category::FourOfAKind
                | Category::FullHouse | Category::SmallStraight | Category::LargeStraight
                | Category::Yahtzee => false,
        }
    }

    /// All thirteen categories, in their fixed order.
    pub fn all() -> (r: Vec<Category>)
        ensures
            r@ == Self::spec_all(),
            r@.len() == 13,
            forall|i: int| 0 <= i < 13 ==> CategorySet::spec_offset(#[trigger] r@[i]) == i,
    {
        let mut r: Vec<Category> = Vec::new();
        r.push(Category::Ones);
        r.push(Category::Twos);
        r.push(Category::Threes);
        r.push(Category::Fours);
        r.push(Category::Fives);
        r.push(Category::Sixes);
        r.push(Category::Chance);
        r.push(Category::ThreeOfAKind);
        r.push(Category::FourOfAKind);
        r.push(Category::FullHouse);
        r.push(Category::SmallStraight);
        r.push(Category::LargeStraight);
        r.push(Category::Yahtzee);
        proof {
            assert(r@ =~= Self::spec_all());
            assert(forall|i: int|
                0 <= i < 13 ==> CategorySet::spec_offset(#[trigger] Self::spec_all()[i]) == i);
        }
        r
    }

    pub open spec fn spec_all() -> Seq<Category> {
        seq![
            Category::Ones,
            Category::Twos,
            Category::Threes,
            Category::Fours,
            Category::Fives,
            Category::Sixes,
            Category::Chance,
            Category::ThreeOfAKind,
            Category::FourOfAKind,
            Category::FullHouse,
            Category::SmallStraight,
            Category::LargeStraight,
            Category::Yahtzee,
        ]
    }
}

/// Which categories have already been scored, as a 13-bit set: bit i stands
/// for the category at offset i.
#[derive(Clone, Copy, PartialEq, Eq, Structural)]
pub struct CategorySet(pub u16);

impl CategorySet {
    pub const NUM_CATEGORY_SETS: u16 = 8192;

    pub const ALL_CATEGORIES_SET: u16 = 8191;

    /// The bit position of a category in the set encoding.
    pub open spec fn spec_offset(category: Category) -> u16 {
        match category {
            Category::Ones => 0,
            Category::Twos => 1,
            Category::Threes => 2,
            Category::Fours => 3,
            Category::Fives => 4,
            Category::Sixes => 5,
            Category::Chance => 6,
            Category::ThreeOfAKind => 7,
            Category::FourOfAKind => 8,
            Category::FullHouse => 9,
            Category::SmallStraight => 10,
            Category::LargeStraight => 11,
            Category::Yahtzee => 12,
        }
    }

    pub open spec fn spec_mask(category: Category) -> u16 {
        1u16 << Self::spec_offset(category)
    }

    pub open spec fn spec_is_set(self, category: Category) -> bool {
        self.0 & Self::spec_mask(category) == Self::spec_mask(category)
    }

    pub open spec fn spec_set(self, category: Category) -> CategorySet {
        CategorySet(self.0 | Self::spec_mask(category))
    }

    /// Number of categories in the set: the number of set bits among the
    /// thirteen category bits.
    pub open spec fn spec_num_used(s: u16) -> int {
        ((s & 1) as int) + (((s >> 1) & 1) as int) + (((s >> 2) & 1) as int) + (((s >> 3)
            & 1) as int) + (((s >> 4) & 1) as int) + (((s >> 5) & 1) as int) + (((s >> 6)
            & 1) as int) + (((s >> 7) & 1) as int) + (((s >> 8) & 1) as int) + (((s >> 9)
            & 1) as int) + (((s >> 10) & 1) as int) + (((s >> 11) & 1) as int) + (((s >> 12)
            & 1) as int) + (((s >> 13) & 1) as int) + (((s >> 14) & 1) as int) + (((s >> 15)
            & 1) as int)
    }

    fn category_offset(category: &Category) -> (r: u8)
        ensures
            r == Self::spec_offset(*category),
            r <= 12,
    {
        match category {
            Category::Ones => 0,
            Category::Twos => 1,
            Category::Threes => 2,
            Category::Fours => 3,
            Category::Fives => 4,
            Category::Sixes => 5,
            Category::Chance => 6,
            Category::ThreeOfAKind => 7,
            Category::FourOfAKind => 8,
            Category::FullHouse => 9,
            Category::SmallStraight => 10,
            Category::LargeStraight => 11,
            Category::Yahtzee => 12,
        }
    }

    pub fn as_int(&self) -> (r: u16)
        ensures
            r == self.0,
    {
        self.0
    }

    /// How many categories have been scored so far.
    pub fn num_used_categories(&self) -> (r: u32)
        ensures
            r == Self::spec_num_used(self.0),
    {
        let s = self.0;
        proof {
            assert((s & 1) <= 1 && ((s >> 1) & 1) <= 1 && ((s >> 2) & 1) <= 1 && ((s >> 3) & 1)
                <= 1 && ((s >> 4) & 1) <= 1 && ((s >> 5) & 1) <= 1 && ((s >> 6) & 1) <= 1 && ((s
                >> 7) & 1) <= 1 && ((s >> 8) & 1) <= 1 && ((s >> 9) & 1) <= 1 && ((s >> 10) & 1)
                <= 1 && ((s >> 11) & 1) <= 1 && ((s >> 12) & 1) <= 1 && ((s >> 13) & 1) <= 1 && ((s
                >> 14) & 1) <= 1 && ((s >> 15) & 1) <= 1) by (bit_vector);
        }
        ((s & 1) as u32) + (((s >> 1) & 1) as u32) + (((s >> 2) & 1) as u32) + (((s >> 3)
            & 1) as u32) + (((s >> 4) & 1) as u32) + (((s >> 5) & 1) as u32) + (((s >> 6)
            & 1) as u32) + (((s >> 7) & 1) as u32) + (((s >> 8) & 1) as u32) + (((s >> 9)
            & 1) as u32) + (((s >> 10) & 1) as u32) + (((s >> 11) & 1) as u32) + (((s >> 12)
            & 1) as u32) + (((s >> 13) & 1) as u32) + (((s >> 14) & 1) as u32) + (((s >> 15)
            & 1) as u32)
    }

    fn category_mask(category: &Category) -> (r: u16)
        ensures
            r == Self::spec_mask(*category),
    {
        let offset = Self::category_offset(category);
        1u16 << offset
    }

    /// The set with this category marked as used; the receiver is unchanged.
    pub fn set(&self, category: &Category) -> (r: Self)
        ensures
            r == self.spec_set(*category),
    {
        let category_mask = Self::category_mask(category);
        CategorySet(self.0 | category_mask)
    }

    /// Has this category been scored already?
    pub fn is_set(&self, category: &Category) -> (r: bool)
        ensures
            r == self.spec_is_set(*category),
    {
        let category_mask = Self::category_mask(category);
        let x = self.0;
        proof {
            assert(category_mask & x == x & category_mask) by (bit_vector);
        }
        category_mask & x == category_mask
    }

    /// Have all thirteen categories been scored?
    pub fn all_set(&self) -> (r: bool)
        ensures
            r == (self.0 == 8191),
    {
        self.0 == 8191
    }

    /// Every possible set of used categories, in ascending bitmask order.
    pub fn all() -> (r: Vec<CategorySet>)
        ensures
            r@.len() == 8192,
            forall|i: int| 0 <= i < 8192 ==> (#[trigger] r@[i]).0 == i,
    {
        let mut r: Vec<CategorySet> = Vec::new();
        let mut i: u16 = 0;
        while i < 8192
            invariant
                i <= 8192,
                r@.len() == i,
                forall|j: int| 0 <= j < i ==> (#[trigger] r@[j]).0 == j,
            decreases 8192 - i,
        {
            r.push(CategorySet(i));
            i = i + 1;
        }
        r
    }
}

/// Marking a category leaves it marked: `is_set` of the category just `set`
/// holds for every category and every starting set.
pub proof fn lemma_set_is_set(s: CategorySet, c: Category)
    ensures
        s.spec_set(c).spec_is_set(c),
{
    let x = s.0;
    let m = CategorySet::spec_mask(c);
    assert((x | m) & m == m) by (bit_vector);
}

/// Marking a category twice is the same as marking it once, for every
/// category and every starting set.
pub proof fn lemma_set_idempotent(s: CategorySet, c: Category)
    ensures
        s.spec_set(c).spec_set(c) == s.spec_set(c),
{
    let x = s.0;
    let m = CategorySet::spec_mask(c);
    assert((x | m) | m == x | m) by (bit_vector);
}

/// Marking a category never unmarks another: membership of every other
/// category is preserved, and the count of used categories grows by exactly
/// one when the category was not yet in the set.
pub proof fn lemma_set_grows(s: CategorySet, c: Category)
    ensures
        forall|d: Category| s.spec_is_set(d) ==> (#[trigger] s.spec_set(c).spec_is_set(d)),
        !s.spec_is_set(c) ==> CategorySet::spec_num_used(s.spec_set(c).0)
            == CategorySet::spec_num_used(s.0) + 1,
{
    let x = s.0;
    assert forall|d: Category| s.spec_is_set(d) implies (#[trigger] s.spec_set(c).spec_is_set(
        d,
    )) by {
        let m = CategorySet::spec_mask(c);
        let md = CategorySet::spec_mask(d);
        assert(x & md == md ==> (x | m) & md == md) by (bit_vector);
    }
    let k = CategorySet::spec_offset(c);
    assert(k <= 12);
    assert(x & (1u16 << k) != (1u16 << k) && k <= 12 ==> CategorySet::spec_num_used(
        x | (1u16 << k),
    ) == CategorySet::spec_num_used(x) + 1) by (bit_vector);
}

} // verus!
