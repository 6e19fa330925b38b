use num::{BigInt, BigRational, One, Zero};
use rand::rngs::StdRng;
use rand::SeedableRng;
use secret_sharing_algos::arith::{gcd, modpow};
use secret_sharing_algos::dealer::{deal, encode};
use secret_sharing_algos::error::SharingError;
use secret_sharing_algos::fraction::Fraction;
use secret_sharing_algos::reconstruct::decode;
use secret_sharing_algos::share::Share;
use secret_sharing_algos::verify::verify_share;

fn big(v: i64) -> BigInt {
    BigInt::from(v)
}

/// The value at zero of the polynomial through the points, by exact
/// rational arithmetic.
fn at_zero(points: &[(BigInt, BigInt)]) -> BigRational {
    let mut sum = BigRational::zero();
    for (i, (xi, yi)) in points.iter().enumerate() {
        let mut term = BigRational::from_integer(yi.clone());
        for (j, (xj, _)) in points.iter().enumerate() {
            if i != j {
                term = term * BigRational::new(-xj.clone(), xi - xj);
            }
        }
        sum = sum + term;
    }
    sum
}

fn expected(points: &[(BigInt, BigInt)]) -> Result<BigInt, SharingError> {
    let v = at_zero(points);
    if v.is_integer() {
        Ok(v.to_integer())
    } else {
        Err(SharingError::ReconstructionError)
    }
}

fn pairs(shares: &[Share]) -> Vec<(BigInt, BigInt)> {
    shares.iter().map(|s| (s.x.clone(), s.y.clone())).collect()
}

fn line(slope: i64) -> (Vec<Share>, Vec<BigInt>) {
    match deal(&vec![big(65), big(slope)], 4, &big(997), &big(2)) {
        Ok(r) => r,
        Err(e) => panic!("{:?}", e),
    }
}

#[test]
fn decode_agrees_with_exact_interpolation() {
    for seed in 0..40u64 {
        let mut rng = StdRng::seed_from_u64(seed);
        let (shares, _) = match encode(&big(65), 5, 3, &big(997), &big(2), &mut rng) {
            Ok(r) => r,
            Err(e) => panic!("{:?}", e),
        };
        for a in 0..5 {
            for b in 0..5 {
                for c in 0..5 {
                    if a != b && a != c && b != c {
                        let picked =
                            vec![shares[a].clone(), shares[b].clone(), shares[c].clone()];
                        assert_eq!(decode(3, &picked), expected(&pairs(&picked)));
                    }
                }
            }
        }
    }
}

#[test]
fn secret_is_recovered_exactly_where_the_quotients_interpolate_to_zero() {
    let q = big(997);
    let mut recovered = 0;
    let mut missed = 0;
    for slope in 1..996i64 {
        let (shares, _) = line(slope);
        for a in 0..4usize {
            for b in 0..4usize {
                if a != b {
                    let picked = vec![shares[a].clone(), shares[b].clone()];
                    let quotients: Vec<(BigInt, BigInt)> = [a, b]
                        .iter()
                        .map(|j| {
                            let x = big(*j as i64 + 1);
                            let value = big(65) + big(slope) * &x;
                            (x, value / &q)
                        })
                        .collect();
                    let vanish = at_zero(&quotients).is_zero();
                    assert_eq!(decode(2, &picked) == Ok(big(65)), vanish);
                    if vanish {
                        recovered += 1;
                    } else {
                        missed += 1;
                    }
                }
            }
        }
    }
    assert!(recovered > 0 && missed > 0);
}

#[test]
fn secret_is_recovered_where_no_value_reaches_the_modulus() {
    // 65 + 4 * slope < 997 for slope <= 232
    for slope in 1..233i64 {
        let (shares, commitments) = line(slope);
        for a in 0..4usize {
            for b in 0..4usize {
                if a != b {
                    let picked = vec![shares[a].clone(), shares[b].clone()];
                    assert_eq!(decode(2, &picked), Ok(big(65)));
                }
            }
        }
        for s in shares.iter() {
            assert_eq!(verify_share(&commitments, s, &big(2), &big(997)), Ok(true));
        }
    }
}

#[test]
fn share_passes_exactly_where_the_powers_of_the_generator_agree() {
    let q = big(997);
    let g = big(2);
    let mut passed = 0;
    let mut failed = 0;
    for slope in 1..996i64 {
        let (shares, commitments) = line(slope);
        for s in shares.iter() {
            let exponent = big(65) + big(slope) * (&s.x % big(996));
            let agree = modpow(&g, &s.y, &q) == modpow(&g, &exponent, &q);
            assert_eq!(verify_share(&commitments, s, &g, &q), Ok(agree));
            if agree {
                passed += 1;
            } else {
                failed += 1;
            }
        }
    }
    assert!(passed > 0 && failed > 0);
}

#[test]
fn changed_value_passes_exactly_where_the_powers_agree() {
    let q = big(997);
    let g = big(2);
    let (shares, commitments) = line(3);
    let honest = &shares[1];
    assert_eq!(verify_share(&commitments, honest, &g, &q), Ok(true));
    for y in 0..997i64 {
        let changed = Share { x: honest.x.clone(), y: big(y) };
        let agree = modpow(&g, &big(y), &q) == modpow(&g, &honest.y, &q);
        assert_eq!(verify_share(&commitments, &changed, &g, &q), Ok(agree));
        if y != 71 && (y - 71) % 332 != 0 {
            assert!(!agree);
        }
    }
}

#[test]
fn scenario_threshold_two_of_four_through_the_generator() {
    // The first seed whose line stays below the modulus at x = 4.
    let q = big(997);
    let g = big(2);
    let mut seed = 0u64;
    let (shares, commitments) = loop {
        let mut rng = StdRng::seed_from_u64(seed);
        let (shares, commitments) = match encode(&big(65), 4, 2, &q, &g, &mut rng) {
            Ok(r) => r,
            Err(e) => panic!("{:?}", e),
        };
        let slope = ((&shares[0].y - big(65)) % &q + &q) % &q;
        if big(65) + big(4) * slope < q {
            break (shares, commitments);
        }
        seed += 1;
        assert!(seed < 1000);
    };
    assert_eq!(shares.len(), 4);
    for a in 0..4usize {
        for b in 0..4usize {
            if a != b {
                let picked = vec![shares[a].clone(), shares[b].clone()];
                assert_eq!(decode(2, &picked), Ok(big(65)));
            }
        }
    }
    for s in shares.iter() {
        assert_eq!(verify_share(&commitments, s, &g, &q), Ok(true));
    }
}

#[test]
fn scenario_threshold_three_with_two_shares() {
    let mut rng = StdRng::seed_from_u64(11);
    let (shares, _) = match encode(&big(65), 4, 3, &big(997), &big(2), &mut rng) {
        Ok(r) => r,
        Err(e) => panic!("{:?}", e),
    };
    let picked = vec![shares[0].clone(), shares[1].clone()];
    assert_eq!(decode(3, &picked), Err(SharingError::InsufficientShares));
}

#[test]
fn fraction_arithmetic_agrees_with_exact_rationals() {
    let values: Vec<(i64, i64)> =
        vec![(1, 2), (-3, 4), (5, -6), (0, 7), (21, 14), (-8, -12), (997, 996), (1, 1)];
    for (an, ad) in values.iter() {
        for (bn, bd) in values.iter() {
            let a = Fraction::new(big(*an), big(*ad)).ok().unwrap();
            let b = Fraction::new(big(*bn), big(*bd)).ok().unwrap();
            let ra = BigRational::new(big(*an), big(*ad));
            let rb = BigRational::new(big(*bn), big(*bd));
            let sum = a.add(&b);
            let product = a.mul(&b);
            let rs = &ra + &rb;
            let rp = &ra * &rb;
            assert_eq!((sum.numerator(), sum.denominator()), (rs.numer(), rs.denom()));
            assert_eq!((product.numerator(), product.denominator()), (rp.numer(), rp.denom()));
            assert!(sum.denominator() > &BigInt::zero());
            let g = gcd(sum.numerator(), sum.denominator());
            assert!(g == BigInt::one() || g == -BigInt::one());
        }
    }
}
