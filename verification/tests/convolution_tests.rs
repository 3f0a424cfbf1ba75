use dice_pmf::bignat::BigNat;
use dice_pmf::dice::Roll;
use dice_pmf::distributions::{
    pmf_convolve, ProbabilityMassFunction, ProbabilityMassFunctionIterator,
};
use dice_pmf::notation::parse_roll_string;

fn as_f64(n: &BigNat) -> f64 {
    n.to_u64().expect("the number fits in 64 bits") as f64
}

/// The (value, probability) pairs of a distribution, in ascending order of the values.
fn pairs(pmf: &ProbabilityMassFunction) -> Vec<(i64, f64)> {
    let total = as_f64(pmf.total());
    let mut out = Vec::new();
    let mut it = pmf.iter();
    while let Some((value, weight)) = it.next() {
        out.push((value, as_f64(weight) / total));
    }
    out
}

fn weights(pmf: &ProbabilityMassFunction) -> Vec<u64> {
    (0..pmf.len()).map(|i| pmf.weight(i).to_u64().unwrap()).collect()
}

fn pmf(offset: i64, weights: &[u64]) -> ProbabilityMassFunction {
    ProbabilityMassFunction::from_weights(offset, weights.to_vec()).expect("a distribution")
}

#[test]
fn coin_flip() {
    let coin = pmf(1, &[1, 1]);
    assert_eq!(pairs(&coin), vec![(1, 0.5), (2, 0.5)]);

    let expected_pmf = [(2i64, 0.25f64), (3, 0.50), (4, 0.25)];

    let convolved_pmf = pmf_convolve(&coin, &coin);

    for (expected, actual) in expected_pmf.iter().zip(pairs(&convolved_pmf).iter()) {
        assert_eq!(expected.0, actual.0);
        assert_eq!(expected.1, actual.1);
    }
}

#[test]
fn two_d_four() {
    let d4 = pmf(1, &[1, 1, 1, 1]);
    assert_eq!(pairs(&d4), vec![(1, 0.25), (2, 0.25), (3, 0.25), (4, 0.25)]);

    let mut expected_pmf: Vec<(i64, f64)> = Vec::new();
    {
        let expected_probabilities =
            [1.0 / 16.0, 1.0 / 8.0, 3.0 / 16.0, 1.0 / 4.0, 3.0 / 16.0, 1.0 / 8.0, 1.0 / 16.0];
        for i in 0..6 {
            expected_pmf.push((2 + i as i64, expected_probabilities[i]));
        }
    }

    let convolved_pmf = pmf_convolve(&d4, &d4);

    for (expected, actual) in expected_pmf.iter().zip(pairs(&convolved_pmf).iter()) {
        assert_eq!(expected.0, actual.0);
        assert_eq!(expected.1, actual.1);
    }
}

#[test]
fn d2_d4() {
    let d2 = pmf(1, &[1, 1]);
    let d4 = pmf(1, &[1, 1, 1, 1]);

    let mut expected_pmf: Vec<(i64, f64)> = Vec::new();
    {
        let expected_probabilities = [1.0 / 8.0, 1.0 / 4.0, 1.0 / 4.0, 1.0 / 4.0, 1.0 / 8.0];
        for (i, proba) in expected_probabilities.iter().enumerate() {
            expected_pmf.push((2 + i as i64, *proba));
        }
    }

    let convolved_pmf = pmf_convolve(&d2, &d4);
    for (expected, actual) in expected_pmf.iter().zip(pairs(&convolved_pmf).iter()) {
        assert_eq!(expected.0, actual.0);
        assert_eq!(expected.1, actual.1);
    }
}

#[test]
fn a_die_is_uniform_from_one() {
    for s in [2u32, 8, 10, 20, 50] {
        let die = ProbabilityMassFunction::from_d(s);
        assert_eq!(die.len(), s as usize);
        assert_eq!(die.offset(), 1);
        assert_eq!(die.total().to_u64(), Some(s as u64));
        let listed = pairs(&die);
        assert_eq!(listed.len(), s as usize);
        for (i, (value, probability)) in listed.iter().enumerate() {
            assert_eq!(*value, 1 + i as i64);
            assert_eq!(*probability, 1.0 / (s as f64));
            assert_eq!(die.weight(i).to_u64(), Some(1));
        }
    }
}

#[test]
fn a_die_with_one_side() {
    let die = ProbabilityMassFunction::from_d(1);
    assert_eq!(pairs(&die), vec![(1, 1.0)]);
}

#[test]
fn coin_with_itself_has_three_points() {
    let coin = ProbabilityMassFunction::from_d(2);
    let twice = pmf_convolve(&coin, &coin);
    assert_eq!(twice.len(), 3);
    assert_eq!(twice.offset(), coin.offset() + coin.offset());
    assert_eq!(pairs(&twice), vec![(2, 0.25), (3, 0.50), (4, 0.25)]);
    assert_eq!(weights(&twice), vec![1, 2, 1]);
    assert_eq!(twice.total().to_u64(), Some(4));
}

#[test]
fn two_d_four_has_seven_points() {
    let d4 = ProbabilityMassFunction::from_d(4);
    let sum = pmf_convolve(&d4, &d4);
    assert_eq!(sum.len(), 7);
    let expected =
        [1.0 / 16.0, 1.0 / 8.0, 3.0 / 16.0, 1.0 / 4.0, 3.0 / 16.0, 1.0 / 8.0, 1.0 / 16.0];
    let listed = pairs(&sum);
    assert_eq!(listed.len(), 7);
    for (i, (value, probability)) in listed.iter().enumerate() {
        assert_eq!(*value, 2 + i as i64);
        assert_eq!(*probability, expected[i]);
    }
    assert_eq!(weights(&sum), vec![1, 2, 3, 4, 3, 2, 1]);
}

#[test]
fn convolution_formula_on_unequal_weights() {
    let a = pmf(-3, &[1, 2, 3]);
    let b = pmf(10, &[4, 0, 5, 6]);
    let c = pmf_convolve(&a, &b);
    assert_eq!(c.offset(), 7);
    assert_eq!(c.len(), 6);
    // slot i holds the sum of a[j] * b[i - j]
    assert_eq!(weights(&c), vec![4, 8, 17, 16, 27, 18]);
    assert_eq!(c.total().to_u64(), Some(6 * 15));
}

#[test]
fn convolution_commutes() {
    let cases: Vec<(ProbabilityMassFunction, ProbabilityMassFunction)> = vec![
        (pmf(1, &[1, 1]), pmf(1, &[1, 1, 1, 1])),
        (pmf(-3, &[1, 2, 3]), pmf(10, &[4, 0, 5, 6])),
        (pmf(0, &[7]), pmf(5, &[1, 2, 3, 4, 5])),
        (pmf(2, &[3, 1, 4]), pmf(-2, &[1, 5, 9])),
        (ProbabilityMassFunction::from_d(6), ProbabilityMassFunction::from_d(20)),
    ];
    for (a, b) in cases.iter() {
        let ab = pmf_convolve(a, b);
        let ba = pmf_convolve(b, a);
        assert_eq!(ab.offset(), ba.offset());
        assert_eq!(weights(&ab), weights(&ba));
        assert_eq!(pairs(&ab), pairs(&ba));
        assert!(ab.total() == ba.total());
    }
}

#[test]
fn convolution_associates() {
    let a = pmf(-3, &[1, 2, 3]);
    let b = pmf(10, &[4, 0, 5, 6]);
    let c = pmf(0, &[7, 1]);
    let left = pmf_convolve(&pmf_convolve(&a, &b), &c);
    let right = pmf_convolve(&a, &pmf_convolve(&b, &c));
    assert_eq!(left.offset(), right.offset());
    assert_eq!(weights(&left), weights(&right));
    assert_eq!(weights(&left), vec![28, 60, 127, 129, 205, 153, 18]);
}

#[test]
fn clone_keeps_the_distribution() {
    let a = pmf(-3, &[1, 2, 3]);
    let b = a.clone();
    assert_eq!(a.offset(), b.offset());
    assert_eq!(weights(&a), weights(&b));
    assert!(a.total() == b.total());
}

#[test]
fn convolution_with_a_single_point_shifts() {
    let a = pmf(4, &[1, 2, 3]);
    let point = pmf(-10, &[1]);
    let shifted = pmf_convolve(&a, &point);
    assert_eq!(shifted.offset(), -6);
    assert_eq!(weights(&shifted), vec![1, 2, 3]);
}

#[test]
fn convolution_total_is_the_product_of_the_totals() {
    let a = pmf(0, &[1, 2, 3]);
    let b = pmf(0, &[2, 2]);
    let c = pmf_convolve(&a, &b);
    assert_eq!(c.total().to_u64(), Some(24));
    assert_eq!(weights(&c).iter().sum::<u64>(), 24);
}

#[test]
fn from_weights_rejects_what_is_no_distribution() {
    assert!(ProbabilityMassFunction::from_weights(0, vec![]).is_none());
    assert!(ProbabilityMassFunction::from_weights(0, vec![0, 0, 0]).is_none());
    assert!(ProbabilityMassFunction::from_weights(i64::MAX, vec![1, 1]).is_none());
    assert!(ProbabilityMassFunction::from_weights(i64::MAX, vec![1]).is_some());
    assert!(ProbabilityMassFunction::from_weights(i64::MIN, vec![0, 1]).is_some());
}

#[test]
fn from_weights_keeps_offset_and_weights() {
    let p = pmf(-7, &[0, u64::MAX, 3]);
    assert_eq!(p.offset(), -7);
    assert_eq!(p.len(), 3);
    assert_eq!(weights(&p), vec![0, u64::MAX, 3]);
    assert!(p.total().to_u64().is_none());
    assert!(*p.total() == BigNat::from_u64(u64::MAX).add(&BigNat::from_u64(3)));
}

#[test]
fn iterator_walks_values_in_ascending_order() {
    let p = pmf(-1, &[5, 6, 7]);
    let mut it = ProbabilityMassFunctionIterator::new(&p);
    let mut seen = Vec::new();
    while let Some((value, weight)) = it.next() {
        seen.push((value, weight.to_u64().unwrap()));
    }
    assert_eq!(seen, vec![(-1, 5), (0, 6), (1, 7)]);
    assert!(it.next().is_none());
    assert!(it.next().is_none());
    // a fresh traversal starts over
    let mut again = p.iter();
    assert_eq!(again.next().map(|(v, w)| (v, w.to_u64().unwrap())), Some((-1, 5)));
}

#[test]
fn iterator_at_the_ends_of_the_range() {
    let p = pmf(i64::MAX - 1, &[1, 1]);
    assert_eq!(pairs(&p), vec![(i64::MAX - 1, 0.5), (i64::MAX, 0.5)]);
    let q = pmf(i64::MIN, &[1, 3]);
    assert_eq!(pairs(&q), vec![(i64::MIN, 0.25), (i64::MIN + 1, 0.75)]);
}

fn roll(text: &str) -> Roll {
    parse_roll_string(text.to_string()).expect("a roll")
}

#[test]
fn from_roll_two_d_six_plus_three() {
    let p = ProbabilityMassFunction::from_roll(&roll("2d6+3"));
    assert_eq!(p.offset(), 5);
    assert_eq!(p.len(), 11);
    assert_eq!(weights(&p), vec![1, 2, 3, 4, 5, 6, 5, 4, 3, 2, 1]);
    assert_eq!(p.total().to_u64(), Some(36));
    let listed = pairs(&p);
    assert_eq!(listed.first().unwrap().0, 3 + 2);
    assert_eq!(listed.last().unwrap().0, 3 + 12);
    assert_eq!(listed[5], (10, 6.0 / 36.0));
}

#[test]
fn from_roll_covers_least_to_greatest_total() {
    let r = roll("1d4 + 2d3 - 5");
    let p = ProbabilityMassFunction::from_roll(&r);
    assert_eq!(p.offset(), -5 + 3);
    assert_eq!(p.offset() + p.len() as i64 - 1, -5 + 4 + 3 + 3);
    assert_eq!(weights(&p), vec![1, 3, 6, 8, 8, 6, 3, 1]);
    assert_eq!(p.total().to_u64(), Some(36));
}

#[test]
fn from_roll_counts_the_ways() {
    // the ways in which the dice show each total, by going through all their faces
    let sides = [4u32, 6, 3, 2];
    let mut counts = vec![0u64; (4 + 6 + 3 + 2) - 4 + 1];
    for a in 1..=sides[0] {
        for b in 1..=sides[1] {
            for c in 1..=sides[2] {
                for d in 1..=sides[3] {
                    counts[(a + b + c + d - 4) as usize] += 1;
                }
            }
        }
    }
    let p = ProbabilityMassFunction::from_roll(&roll("1d4 + 1d6 + 1d3 + 1d2 + 100"));
    assert_eq!(p.offset(), 104);
    assert_eq!(weights(&p), counts);
    assert_eq!(p.total().to_u64(), Some(4 * 6 * 3 * 2));
}

#[test]
fn try_from_roll_tells_when_there_is_no_distribution() {
    let some = ProbabilityMassFunction::try_from_roll(&roll("2d6+3")).expect("a distribution");
    assert_eq!(some.offset(), 5);
    assert_eq!(weights(&some), vec![1, 2, 3, 4, 5, 6, 5, 4, 3, 2, 1]);

    // no dice
    assert!(ProbabilityMassFunction::try_from_roll(&Roll::new()).is_none());
    assert!(ProbabilityMassFunction::try_from_roll(&roll("7")).is_none());
    let mut empty_groups = Roll::new();
    empty_groups.add_d(0, 6).add_d(0, 4);
    assert!(ProbabilityMassFunction::try_from_roll(&empty_groups).is_none());

    // a die without sides
    let mut no_sides = Roll::new();
    no_sides.add_d(1, 6).add_d(1, 0);
    assert!(ProbabilityMassFunction::try_from_roll(&no_sides).is_none());

    // a group without dice is no die without sides
    let mut skipped = Roll::new();
    skipped.add_d(0, 0).add_d(1, 2);
    let coin = ProbabilityMassFunction::try_from_roll(&skipped).expect("a distribution");
    assert_eq!(weights(&coin), vec![1, 1]);
}

#[test]
fn from_roll_single_die() {
    let p = ProbabilityMassFunction::from_roll(&roll("1d20"));
    assert_eq!(p.offset(), 1);
    assert_eq!(p.len(), 20);
    assert_eq!(weights(&p), vec![1; 20]);
}

#[test]
fn from_roll_skips_groups_without_dice() {
    let mut r = Roll::new();
    r.add_d(0, 9).add_d(2, 2).add_d(0, 5).add_d(1, 3).add_modifier(-1);
    let p = ProbabilityMassFunction::from_roll(&r);
    assert_eq!(p.offset(), 2);
    assert_eq!(weights(&p), vec![1, 3, 4, 3, 1]);
}

#[test]
fn probabilities_sum_to_one() {
    let groups = ["1d4", "2d6", "1d8", "3d3", "1d10", "2d12", "1d20", "1d2", "2d5", "1d7"];
    for n in 1..=groups.len() {
        let text = groups[..n].join(" + ");
        let p = ProbabilityMassFunction::from_roll(&roll(&text));
        // exactly: the weights sum to the total
        let mut sum = BigNat::zero();
        for i in 0..p.len() {
            sum = sum.add(p.weight(i));
        }
        assert!(sum == *p.total());
        // and within tolerance as floating point
        let total = big_to_f64(p.total());
        let mut mass = 0.0f64;
        let mut it = p.iter();
        while let Some((_, weight)) = it.next() {
            mass += big_to_f64(weight) / total;
        }
        assert!((mass - 1.0).abs() < 1e-9, "mass {} for {}", mass, text);
    }
}

fn big_to_f64(n: &BigNat) -> f64 {
    let mut value = 0.0f64;
    for limb in n.as_limbs().iter().rev() {
        value = value * 4294967296.0 + *limb as f64;
    }
    value
}

#[test]
fn many_dice_outgrow_machine_words() {
    let p = ProbabilityMassFunction::from_roll(&roll("20d20"));
    assert_eq!(p.offset(), 20);
    assert_eq!(p.len(), 20 * 19 + 1);
    assert!(p.total().to_u64().is_none());
    let mut expected = BigNat::from_u64(1);
    for _ in 0..20 {
        expected = expected.mul_small(20);
    }
    assert!(*p.total() == expected);
    assert_eq!(p.weight(0).to_u64(), Some(1));
    assert_eq!(p.weight(1).to_u64(), Some(20));
    assert_eq!(p.weight(p.len() - 1).to_u64(), Some(1));
}
