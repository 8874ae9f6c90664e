use yahtzee_solver::category::Category;
use yahtzee_solver::category::CategorySet;
use yahtzee_solver::dice::Dice;
use yahtzee_solver::dice::KeepAndRoll;
use yahtzee_solver::dice::KeepAndRollData;
use yahtzee_solver::turn::Turn;

fn dice(ones: u8, twos: u8, threes: u8, fours: u8, fives: u8, sixes: u8) -> Dice {
    Dice { ones, twos, threes, fours, fives, sixes }
}

fn all_categories() -> Vec<Category> {
    Category::all()
}

fn probability(d: &Dice) -> f64 {
    d.probability_numerator() as f64 / d.probability_denominator() as f64
}

#[test]
fn all_keeps_yields_462_distinct_multisets() {
    let keeps = Dice::all_keeps();
    assert_eq!(keeps.len(), 462);
    for k in keeps.iter() {
        assert!(k.n_dice() <= 5);
    }
    for i in 0..keeps.len() {
        for j in (i + 1)..keeps.len() {
            assert!(keeps[i] != keeps[j]);
        }
    }
}

#[test]
fn probabilities_sum_to_one_for_each_dice_count() {
    let keeps = Dice::all_keeps();
    for n in 0..=5u8 {
        let mut sum: f64 = 0.0;
        let mut count: usize = 0;
        for k in keeps.iter() {
            if k.n_dice() == n {
                sum += probability(k);
                count += 1;
            }
        }
        assert!(count > 0);
        assert!((sum - 1.0).abs() < 1e-5, "dice count {}: sum {}", n, sum);
    }
}

#[test]
fn probabilities_of_the_252_canonical_rolls_sum_to_one() {
    let data = KeepAndRoll::all();
    assert_eq!(data.all_rolls.len(), 252);
    let mut sum: f64 = 0.0;
    for roll in data.all_rolls.iter() {
        assert_eq!(roll.n_dice(), 5);
        sum += probability(roll);
    }
    assert!((sum - 1.0).abs() < 1e-5, "sum {}", sum);
}

#[test]
fn exact_probability_of_a_fixed_roll() {
    // Full house 2+3: probability 5!/(2!·3!) / 6^5 = 10/7776.
    let d = dice(2, 3, 0, 0, 0, 0);
    assert_eq!(d.probability_numerator(), 120);
    assert_eq!(d.probability_denominator(), 7776 * 2 * 6);
    // A yahtzee of ones: 1/7776.
    let y = dice(5, 0, 0, 0, 0, 0);
    assert_eq!(y.probability_numerator(), 120);
    assert_eq!(y.probability_denominator(), 7776 * 120);
    // Rerolling no dice at all keeps the hand with probability 1.
    let none = dice(0, 0, 0, 0, 0, 0);
    assert_eq!(none.probability_numerator(), 1);
    assert_eq!(none.probability_denominator(), 1);
}

#[test]
fn keep_and_roll_table_shape() {
    let KeepAndRollData { keeps_and_rolls, all_rolls, n_keeps, n_rolls, .. } = KeepAndRoll::all();
    assert_eq!(n_keeps, 462);
    assert_eq!(n_rolls, 252);
    assert_eq!(all_rolls.len(), 252);
    assert_eq!(keeps_and_rolls.len(), 4368);
    for e in keeps_and_rolls.iter() {
        assert!(e.keep_index < n_keeps);
        assert!(e.roll_index < n_rolls);
    }
    // For every keep, the probabilities over its reachable rerolls sum to 1.
    let mut per_keep: Vec<f64> = vec![0.0; n_keeps];
    for e in keeps_and_rolls.iter() {
        per_keep[e.keep_index] += e.numerator as f64 / e.denominator as f64;
    }
    for (k, p) in per_keep.iter().enumerate() {
        assert!((p - 1.0).abs() < 1e-5, "keep {}: sum {}", k, p);
    }
}

#[test]
fn category_scores_of_fixed_hands() {
    let full = dice(2, 0, 3, 0, 0, 0);
    assert_eq!(Category::Ones.score(&full), 2);
    assert_eq!(Category::Threes.score(&full), 9);
    assert_eq!(Category::Chance.score(&full), 11);
    assert_eq!(Category::ThreeOfAKind.score(&full), 11);
    assert_eq!(Category::FourOfAKind.score(&full), 0);
    assert_eq!(Category::FullHouse.score(&full), 25);
    assert_eq!(Category::Yahtzee.score(&full), 0);

    let small = dice(0, 1, 1, 1, 1, 1);
    assert_eq!(Category::SmallStraight.score(&small), 30);
    assert_eq!(Category::LargeStraight.score(&small), 40);

    let run = dice(1, 1, 1, 1, 0, 1);
    assert_eq!(Category::SmallStraight.score(&run), 30);
    assert_eq!(Category::LargeStraight.score(&run), 0);

    let yahtzee = dice(0, 0, 0, 0, 0, 5);
    assert_eq!(Category::Yahtzee.score(&yahtzee), 50);
    assert_eq!(Category::Sixes.score(&yahtzee), 30);
    assert_eq!(Category::FourOfAKind.score(&yahtzee), 30);
}

#[test]
fn upper_category_classification() {
    for c in all_categories() {
        let expected = matches!(
            c,
            Category::Ones
                | Category::Twos
                | Category::Threes
                | Category::Fours
                | Category::Fives
                | Category::Sixes
        );
        assert_eq!(c.is_upper_category(), expected);
    }
}

#[test]
fn category_set_set_and_is_set() {
    for c in all_categories() {
        for start in [0u16, 5, 4095, 8191] {
            let s = CategorySet(start);
            let after = s.set(&c);
            assert!(after.is_set(&c));
            // Setting twice changes nothing.
            assert_eq!(after.set(&c).as_int(), after.as_int());
            // No other category is disturbed.
            for d in all_categories() {
                if s.is_set(&d) {
                    assert!(after.is_set(&d));
                }
            }
        }
    }
}

#[test]
fn category_set_counts_and_all_set() {
    assert_eq!(CategorySet(0).num_used_categories(), 0);
    assert_eq!(CategorySet(8191).num_used_categories(), 13);
    assert_eq!(CategorySet(5).num_used_categories(), 2);
    assert!(CategorySet(8191).all_set());
    assert!(!CategorySet(8190).all_set());
    let sets = CategorySet::all();
    assert_eq!(sets.len(), 8192);
    for (i, s) in sets.iter().enumerate() {
        assert_eq!(s.as_int() as usize, i);
    }
}

#[test]
fn turn_new_clamps_high_upper_scores() {
    let cs = CategorySet(37);
    for high in [64u8, 70, 100, 255] {
        let clamped = Turn::new(cs, high);
        let base = Turn::new(cs, 63);
        assert_eq!(clamped.as_int(), base.as_int());
        assert_eq!(clamped.upper_category_score, 63);
    }
    assert_eq!(Turn::new(cs, 63).upper_category_score, 63);
    assert_eq!(Turn::new(cs, 12).upper_category_score, 12);
}

#[test]
fn turn_enumeration_covers_every_index_exactly_once() {
    let groups = Turn::all();
    assert_eq!(groups.len(), 14);
    let mut seen = vec![false; 524288];
    let mut total: usize = 0;
    for (g, turns) in groups.iter().enumerate() {
        for t in turns.iter() {
            assert_eq!(t.used_categories.num_used_categories() as usize, g);
            let i = t.as_int() as usize;
            assert!(i < 524288);
            assert!(!seen[i], "index {} produced twice", i);
            seen[i] = true;
            total += 1;
        }
    }
    assert_eq!(total, 524288);
    assert!(seen.iter().all(|&b| b));
    // Group sizes: 64 states per category set, binomial(13, g) sets per group.
    assert_eq!(groups[0].len(), 64);
    assert_eq!(groups[1].len(), 13 * 64);
    assert_eq!(groups[13].len(), 64);
}

#[test]
fn category_order_matches_bit_offsets() {
    let categories = Category::all();
    assert_eq!(categories.len(), 13);
    for (i, c) in categories.iter().enumerate() {
        assert_eq!(CategorySet(0).set(c).as_int(), 1u16 << i);
    }
}

#[test]
fn terminal_states_value_is_the_upper_bonus() {
    let done = CategorySet(8191);
    assert!(done.all_set());
    let with_bonus = Turn::new(done, 63);
    assert_eq!(with_bonus.upper_bonus() as f32, 35.0);
    let without_bonus = Turn::new(done, 62);
    assert_eq!(without_bonus.upper_bonus() as f32, 0.0);
}

#[test]
fn apply_category_scores_and_advances_the_state() {
    let start = Turn::new(CategorySet(0), 0);
    let sixes = dice(0, 0, 0, 0, 0, 5);
    let (score, next) = start.apply_category(&Category::Sixes, &sixes);
    assert_eq!(score, 30);
    assert_eq!(next.upper_category_score, 30);
    assert!(next.used_categories.is_set(&Category::Sixes));
    assert_eq!(next.used_categories.num_used_categories(), 1);

    // A lower category leaves the upper running score alone.
    let (score, next) = start.apply_category(&Category::Yahtzee, &sixes);
    assert_eq!(score, 50);
    assert_eq!(next.upper_category_score, 0);
    assert!(next.used_categories.is_set(&Category::Yahtzee));

    // The upper running score clamps at the bonus threshold.
    let near = Turn::new(CategorySet(0), 60);
    let (_, next) = near.apply_category(&Category::Sixes, &sixes);
    assert_eq!(next.upper_category_score, 63);
}

fn key_of(d: &Dice) -> usize {
    d.ones as usize
        + 6 * d.twos as usize
        + 36 * d.threes as usize
        + 216 * d.fours as usize
        + 1296 * d.fives as usize
        + 7776 * d.sixes as usize
}

fn subset_of(a: &Dice, b: &Dice) -> bool {
    a.ones <= b.ones
        && a.twos <= b.twos
        && a.threes <= b.threes
        && a.fours <= b.fours
        && a.fives <= b.fives
        && a.sixes <= b.sixes
}

/// The value of the state where only Yahtzee is unused and the upper score
/// sits at 63, computed once through the keep/roll transition table (the
/// engine's three stages) and once by direct expectimax over explicit keep
/// subsets, without the table.
#[test]
fn single_remaining_category_matches_direct_enumeration() {
    let turn = Turn::new(CategorySet(4095), 63);
    assert!(!turn.used_categories.all_set());
    assert!(!turn.used_categories.is_set(&Category::Yahtzee));

    let data = KeepAndRoll::all();
    let n_rolls = data.n_rolls;
    let n_keeps = data.n_keeps;

    // Value of ending the turn on each canonical roll: score Yahtzee (the
    // only unused category) and collect the terminal bonus.
    let mut end_values: Vec<f64> = vec![0.0; n_rolls];
    for (i, roll) in data.all_rolls.iter().enumerate() {
        let (score, next) = turn.apply_category(&Category::Yahtzee, roll);
        assert!(next.used_categories.all_set());
        end_values[i] = score as f64 + next.upper_bonus() as f64;
    }

    // Table-driven: two reroll decisions, then the expectation over the
    // opening roll.
    let mut roll_values = end_values.clone();
    for _ in 0..2 {
        let mut keep_values: Vec<f64> = vec![0.0; n_keeps];
        for e in data.keeps_and_rolls.iter() {
            keep_values[e.keep_index] +=
                (e.numerator as f64 / e.denominator as f64) * roll_values[e.roll_index];
        }
        let mut new_roll_values: Vec<f64> = vec![f64::NEG_INFINITY; n_rolls];
        for e in data.keeps_and_rolls.iter() {
            if keep_values[e.keep_index] > new_roll_values[e.roll_index] {
                new_roll_values[e.roll_index] = keep_values[e.keep_index];
            }
        }
        roll_values = new_roll_values;
    }
    let mut table_value: f64 = 0.0;
    for (i, roll) in data.all_rolls.iter().enumerate() {
        table_value += probability(roll) * roll_values[i];
    }

    // Direct: enumerate keep subsets of each roll and rerolls of the
    // missing dice, with no precomputed table.
    let keeps = Dice::all_keeps();
    let mut index_by_key: Vec<usize> = vec![usize::MAX; 46656];
    for (i, roll) in data.all_rolls.iter().enumerate() {
        index_by_key[key_of(roll)] = i;
    }
    let mut direct_values = end_values.clone();
    for _ in 0..2 {
        let mut next_values: Vec<f64> = vec![0.0; n_rolls];
        for (i, roll) in data.all_rolls.iter().enumerate() {
            let mut best = f64::NEG_INFINITY;
            for keep in keeps.iter().filter(|k| subset_of(k, roll)) {
                let missing = 5 - keep.n_dice();
                let mut expectation: f64 = 0.0;
                for reroll in keeps.iter().filter(|r| r.n_dice() == missing) {
                    let outcome = Dice::combine(*keep, *reroll);
                    let j = index_by_key[key_of(&outcome)];
                    expectation += probability(reroll) * direct_values[j];
                }
                if expectation > best {
                    best = expectation;
                }
            }
            next_values[i] = best;
        }
        direct_values = next_values;
    }
    let mut direct_value: f64 = 0.0;
    for (i, roll) in data.all_rolls.iter().enumerate() {
        direct_value += probability(roll) * direct_values[i];
    }

    assert!(
        (table_value - direct_value).abs() < 1e-9,
        "table {} vs direct {}",
        table_value,
        direct_value
    );
    // The bonus alone is always collected, and a rolled Yahtzee adds 50.
    assert!(table_value > 35.0 && table_value < 85.0);
}
