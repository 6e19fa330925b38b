use num::BigInt;
use rand::rngs::StdRng;
use rand::SeedableRng;
use secret_sharing_algos::arith::modpow;
use secret_sharing_algos::dealer::{deal, encode, nonzero_draw, MAX_DRAWS};
use secret_sharing_algos::error::SharingError;
use secret_sharing_algos::reconstruct::decode;
use secret_sharing_algos::share::Share;
use secret_sharing_algos::verify::verify_share;

fn big(v: i64) -> BigInt {
    BigInt::from(v)
}

fn share(x: i64, y: i64) -> Share {
    Share { x: big(x), y: big(y) }
}

fn dealt(coefficients: &[i64], n: usize, q: i64, g: i64) -> (Vec<Share>, Vec<BigInt>) {
    let poly: Vec<BigInt> = coefficients.iter().map(|c| big(*c)).collect();
    match deal(&poly, n, &big(q), &big(g)) {
        Ok(r) => r,
        Err(e) => panic!("{:?}", e),
    }
}

fn pick(shares: &[Share], indices: &[usize]) -> Vec<Share> {
    indices.iter().map(|i| shares[*i].clone()).collect()
}

#[test]
fn deal_evaluates_the_polynomial_at_one_to_n() {
    let (shares, commitments) = dealt(&[65, 3], 4, 997, 2);
    assert_eq!(shares, vec![share(1, 68), share(2, 71), share(3, 74), share(4, 77)]);
    assert_eq!(commitments, vec![big(925), big(8)]);
}

#[test]
fn deal_reduces_the_values_modulo_q() {
    let (shares, commitments) = dealt(&[65, 500], 4, 997, 2);
    assert_eq!(shares, vec![share(1, 565), share(2, 68), share(3, 568), share(4, 71)]);
    assert_eq!(commitments, vec![big(925), big(993)]);
}

#[test]
fn deal_of_a_quadratic() {
    let (shares, commitments) = dealt(&[65, 2, 1], 4, 997, 2);
    assert_eq!(shares, vec![share(1, 68), share(2, 73), share(3, 80), share(4, 89)]);
    assert_eq!(commitments, vec![big(925), big(4), big(2)]);
}

#[test]
fn deal_rejects_a_threshold_out_of_range() {
    assert_eq!(deal(&Vec::new(), 4, &big(997), &big(2)), Err(SharingError::InvalidThreshold));
    assert_eq!(
        deal(&vec![big(1), big(2), big(3)], 2, &big(997), &big(2)),
        Err(SharingError::InvalidThreshold)
    );
    assert_eq!(deal(&vec![big(1)], 0, &big(997), &big(2)), Err(SharingError::InvalidThreshold));
}

#[test]
fn deal_rejects_a_bad_modulus_or_a_negative_coefficient() {
    assert_eq!(deal(&vec![big(65), big(3)], 4, &big(0), &big(2)), Err(SharingError::DomainError));
    assert_eq!(deal(&vec![big(65), big(3)], 4, &big(-997), &big(2)), Err(SharingError::DomainError));
    assert_eq!(deal(&vec![big(65), big(-3)], 4, &big(997), &big(2)), Err(SharingError::DomainError));
    assert_eq!(deal(&vec![big(-65), big(3)], 4, &big(997), &big(2)), Err(SharingError::DomainError));
}

#[test]
fn deal_reports_the_threshold_before_the_domain() {
    assert_eq!(deal(&Vec::new(), 4, &big(0), &big(2)), Err(SharingError::InvalidThreshold));
}

#[test]
fn scenario_threshold_two_of_four() {
    let (shares, commitments) = dealt(&[65, 3], 4, 997, 2);
    for a in 0..4 {
        for b in 0..4 {
            if a != b {
                assert_eq!(decode(2, &pick(&shares, &[a, b])), Ok(big(65)));
            }
        }
    }
    for s in shares.iter() {
        assert_eq!(verify_share(&commitments, s, &big(2), &big(997)), Ok(true));
    }
}

#[test]
fn scenario_too_few_shares() {
    let (shares, _) = dealt(&[65, 2, 1], 4, 997, 2);
    assert_eq!(decode(3, &pick(&shares, &[0, 1])), Err(SharingError::InsufficientShares));
    assert_eq!(decode(3, &pick(&shares, &[2])), Err(SharingError::InsufficientShares));
    assert_eq!(decode(3, &Vec::new()), Err(SharingError::InsufficientShares));
}

#[test]
fn scenario_duplicate_index() {
    assert_eq!(decode(2, &vec![share(1, 68), share(1, 68)]), Err(SharingError::DuplicateShareIndex));
    assert_eq!(decode(2, &vec![share(1, 68), share(1, 71)]), Err(SharingError::DuplicateShareIndex));
}

#[test]
fn decode_reports_too_few_shares_before_duplicates() {
    assert_eq!(decode(3, &vec![share(1, 68), share(1, 68)]), Err(SharingError::InsufficientShares));
}

#[test]
fn decode_looks_for_duplicates_among_all_points() {
    let points = vec![share(1, 68), share(2, 71), share(2, 71)];
    assert_eq!(decode(2, &points), Err(SharingError::DuplicateShareIndex));
}

#[test]
fn decode_interpolates_the_first_k_points() {
    let points = vec![share(1, 68), share(2, 71), share(3, 1000)];
    assert_eq!(decode(2, &points), Ok(big(65)));
}

#[test]
fn decode_any_three_of_a_quadratic() {
    let (shares, _) = dealt(&[65, 2, 1], 4, 997, 2);
    assert_eq!(decode(3, &pick(&shares, &[0, 1, 2])), Ok(big(65)));
    assert_eq!(decode(3, &pick(&shares, &[0, 1, 3])), Ok(big(65)));
    assert_eq!(decode(3, &pick(&shares, &[0, 2, 3])), Ok(big(65)));
    assert_eq!(decode(3, &pick(&shares, &[1, 2, 3])), Ok(big(65)));
    assert_eq!(decode(3, &pick(&shares, &[3, 1, 0])), Ok(big(65)));
    assert_eq!(decode(3, &shares), Ok(big(65)));
}

#[test]
fn decode_rejects_points_that_give_no_whole_number() {
    assert_eq!(decode(2, &vec![share(1, 565), share(4, 71)]), Err(SharingError::ReconstructionError));
    assert_eq!(decode(2, &vec![share(1, 1), share(3, 2)]), Err(SharingError::ReconstructionError));
}

#[test]
fn decode_of_reduced_values_can_miss_the_secret() {
    let (shares, _) = dealt(&[65, 500], 4, 997, 2);
    // (1, 565) and (2, 68): the line through them meets zero at 1062.
    assert_eq!(decode(2, &pick(&shares, &[0, 1])), Ok(big(1062)));
}

#[test]
fn decode_with_threshold_zero_is_the_empty_sum() {
    assert_eq!(decode(0, &Vec::new()), Ok(big(0)));
    assert_eq!(decode(0, &vec![share(1, 68)]), Ok(big(0)));
}

#[test]
fn decode_with_threshold_one_is_the_value_of_the_first_point() {
    assert_eq!(decode(1, &vec![share(5, 65)]), Ok(big(65)));
    assert_eq!(decode(1, &vec![share(5, 65), share(6, 70)]), Ok(big(65)));
}

#[test]
fn decode_accepts_a_point_at_zero() {
    assert_eq!(decode(2, &vec![share(0, 65), share(2, 71)]), Ok(big(65)));
}

#[test]
fn decode_handles_negative_values() {
    // y = -3 x + 7
    assert_eq!(decode(2, &vec![share(1, 4), share(5, -8)]), Ok(big(7)));
    // y = x^2 - 4, through x = -1, 2, 3
    assert_eq!(decode(3, &vec![share(-1, -3), share(2, 0), share(3, 5)]), Ok(big(-4)));
}

#[test]
fn verify_accepts_each_share_of_a_quadratic() {
    let (shares, commitments) = dealt(&[65, 2, 1], 4, 997, 2);
    for s in shares.iter() {
        assert_eq!(verify_share(&commitments, s, &big(2), &big(997)), Ok(true));
    }
}

#[test]
fn verify_rejects_a_changed_value() {
    let (_, commitments) = dealt(&[65, 3], 4, 997, 2);
    assert_eq!(verify_share(&commitments, &share(1, 68), &big(2), &big(997)), Ok(true));
    assert_eq!(verify_share(&commitments, &share(1, 69), &big(2), &big(997)), Ok(false));
    assert_eq!(verify_share(&commitments, &share(1, 0), &big(2), &big(997)), Ok(false));
    assert_eq!(verify_share(&commitments, &share(2, 68), &big(2), &big(997)), Ok(false));
}

#[test]
fn verify_rejects_a_changed_commitment() {
    let (shares, _) = dealt(&[65, 3], 4, 997, 2);
    let forged = vec![big(925), big(16)];
    assert_eq!(verify_share(&forged, &shares[0], &big(2), &big(997)), Ok(false));
}

#[test]
fn verify_compares_powers_of_the_generator() {
    // 2 has order 332 modulo 997, so a value moved by 332 passes as well.
    let (_, commitments) = dealt(&[65, 3], 4, 997, 2);
    assert_eq!(modpow(&big(2), &big(332), &big(997)), Ok(big(1)));
    assert_eq!(verify_share(&commitments, &share(1, 68 + 332), &big(2), &big(997)), Ok(true));
}

#[test]
fn verify_of_a_reduced_value_can_fail() {
    let (shares, commitments) = dealt(&[65, 500], 4, 997, 2);
    assert_eq!(verify_share(&commitments, &shares[0], &big(2), &big(997)), Ok(true));
    assert_eq!(verify_share(&commitments, &shares[3], &big(2), &big(997)), Ok(false));
}

#[test]
fn verify_with_no_commitments_compares_with_one() {
    assert_eq!(verify_share(&Vec::new(), &share(1, 0), &big(2), &big(997)), Ok(true));
    assert_eq!(verify_share(&Vec::new(), &share(1, 5), &big(2), &big(997)), Ok(false));
}

#[test]
fn verify_reduces_the_exponent_by_q_minus_one() {
    // x = 1000 = 4 modulo 996
    let (_, commitments) = dealt(&[65, 3], 4, 997, 2);
    assert_eq!(verify_share(&commitments, &share(1000, 77), &big(2), &big(997)), Ok(true));
}

#[test]
fn verify_rejects_values_outside_its_domain() {
    let (_, commitments) = dealt(&[65, 3], 4, 997, 2);
    assert_eq!(verify_share(&commitments, &share(1, 68), &big(2), &big(1)), Err(SharingError::DomainError));
    assert_eq!(verify_share(&commitments, &share(1, 68), &big(2), &big(0)), Err(SharingError::DomainError));
    assert_eq!(verify_share(&commitments, &share(1, 68), &big(2), &big(-5)), Err(SharingError::DomainError));
    assert_eq!(verify_share(&commitments, &share(-1, 68), &big(2), &big(997)), Err(SharingError::DomainError));
    assert_eq!(verify_share(&commitments, &share(1, -68), &big(2), &big(997)), Err(SharingError::DomainError));
}

#[test]
fn verify_with_modulus_two() {
    // every power of 1 is 1
    let (shares, commitments) = dealt(&[1, 1], 2, 2, 1);
    assert_eq!(shares, vec![share(1, 0), share(2, 1)]);
    assert_eq!(commitments, vec![big(1), big(1)]);
    assert_eq!(verify_share(&commitments, &shares[0], &big(1), &big(2)), Ok(true));
    assert_eq!(verify_share(&commitments, &shares[1], &big(1), &big(2)), Ok(true));
}

#[test]
fn nonzero_draw_passes_all_but_zero() {
    assert_eq!(nonzero_draw(big(0)), None);
    assert_eq!(nonzero_draw(big(1)), Some(big(1)));
    assert_eq!(nonzero_draw(big(995)), Some(big(995)));
    assert_eq!(nonzero_draw(big(-3)), Some(big(-3)));
}

#[test]
fn encode_rejects_a_threshold_out_of_range() {
    let mut rng = StdRng::seed_from_u64(1);
    let before = rng.clone();
    assert_eq!(
        encode(&big(65), 4, 0, &big(997), &big(2), &mut rng),
        Err(SharingError::InvalidThreshold)
    );
    assert_eq!(
        encode(&big(65), 4, 5, &big(997), &big(2), &mut rng),
        Err(SharingError::InvalidThreshold)
    );
    assert_eq!(
        encode(&big(65), 0, 0, &big(997), &big(2), &mut rng),
        Err(SharingError::InvalidThreshold)
    );
    assert_eq!(
        encode(&big(65), 4, 5, &big(0), &big(2), &mut rng),
        Err(SharingError::InvalidThreshold)
    );
    // nothing was drawn
    assert_eq!(rng, before);
}

#[test]
fn encode_rejects_values_outside_its_domain() {
    let mut rng = StdRng::seed_from_u64(1);
    let before = rng.clone();
    assert_eq!(encode(&big(65), 4, 2, &big(0), &big(2), &mut rng), Err(SharingError::DomainError));
    assert_eq!(encode(&big(65), 4, 2, &big(-997), &big(2), &mut rng), Err(SharingError::DomainError));
    assert_eq!(encode(&big(-1), 4, 2, &big(997), &big(2), &mut rng), Err(SharingError::DomainError));
    assert_eq!(rng, before);
}

#[test]
fn encode_gives_up_where_no_coefficient_can_be_drawn() {
    let mut rng = StdRng::seed_from_u64(1);
    assert_eq!(encode(&big(0), 4, 2, &big(1), &big(1), &mut rng), Err(SharingError::ExhaustedDraws));
    assert_eq!(encode(&big(1), 4, 2, &big(2), &big(1), &mut rng), Err(SharingError::ExhaustedDraws));
    assert_eq!(MAX_DRAWS, 128);
}

#[test]
fn encode_with_threshold_one_draws_nothing() {
    let mut rng = StdRng::seed_from_u64(1);
    let before = rng.clone();
    let (shares, commitments) = match encode(&big(65), 3, 1, &big(997), &big(2), &mut rng) {
        Ok(r) => r,
        Err(e) => panic!("{:?}", e),
    };
    assert_eq!(rng, before);
    assert_eq!(shares, vec![share(1, 65), share(2, 65), share(3, 65)]);
    assert_eq!(commitments, vec![big(925)]);
    for s in shares.iter() {
        assert_eq!(verify_share(&commitments, s, &big(2), &big(997)), Ok(true));
        assert_eq!(decode(1, &vec![s.clone()]), Ok(big(65)));
    }
    let (shares, _) = match encode(&big(0), 1, 1, &big(1), &big(2), &mut rng) {
        Ok(r) => r,
        Err(e) => panic!("{:?}", e),
    };
    assert_eq!(shares, vec![share(1, 0)]);
}

#[test]
fn encode_deals_a_line_with_a_drawn_slope() {
    let q = big(997);
    let g = big(2);
    for seed in 0..50u64 {
        let mut rng = StdRng::seed_from_u64(seed);
        let (shares, commitments) = match encode(&big(65), 4, 2, &q, &g, &mut rng) {
            Ok(r) => r,
            Err(e) => panic!("{:?}", e),
        };
        assert_eq!(shares.len(), 4);
        assert_eq!(commitments.len(), 2);
        assert_eq!(commitments[0], big(925));
        // the slope, from the first share
        let slope = ((&shares[0].y - big(65)) % &q + &q) % &q;
        assert!(slope >= big(1) && slope <= big(995));
        assert_eq!(modpow(&g, &slope, &q), Ok(commitments[1].clone()));
        for (j, s) in shares.iter().enumerate() {
            let x = big(j as i64 + 1);
            assert_eq!(s.x, x);
            assert_eq!(s.y, (big(65) + &slope * &x) % &q);
        }
    }
}

#[test]
fn encode_with_a_wide_modulus_shares_and_recovers() {
    // With a modulus far above n times the coefficients nothing is reduced;
    // the secret is then recovered and every share passes. Here the
    // polynomial is dealt, so that the coefficients are known to be small.
    let q = "170141183460469231731687303715884105727".parse::<BigInt>().unwrap();
    let g = big(3);
    let secret = big(123456789);
    let poly = vec![secret.clone(), big(987654321), big(55555), big(7)];
    let (shares, commitments) = match deal(&poly, 6, &q, &g) {
        Ok(r) => r,
        Err(e) => panic!("{:?}", e),
    };
    assert_eq!(decode(4, &pick(&shares, &[0, 1, 2, 3])), Ok(secret.clone()));
    assert_eq!(decode(4, &pick(&shares, &[5, 3, 1, 0])), Ok(secret.clone()));
    assert_eq!(decode(4, &pick(&shares, &[2, 3, 4, 5])), Ok(secret.clone()));
    for s in shares.iter() {
        assert_eq!(verify_share(&commitments, s, &g, &q), Ok(true));
    }
    let mut bad = shares[2].clone();
    bad.y = &bad.y + big(1);
    assert_eq!(verify_share(&commitments, &bad, &g, &q), Ok(false));
}

#[test]
fn encode_draws_coefficients_in_range_for_a_wide_modulus() {
    let q = "170141183460469231731687303715884105727".parse::<BigInt>().unwrap();
    let g = big(3);
    let mut rng = StdRng::seed_from_u64(2024);
    let (shares, commitments) = match encode(&big(42), 5, 3, &q, &g, &mut rng) {
        Ok(r) => r,
        Err(e) => panic!("{:?}", e),
    };
    assert_eq!(shares.len(), 5);
    assert_eq!(commitments.len(), 3);
    assert_eq!(modpow(&g, &big(42), &q), Ok(commitments[0].clone()));
    for (j, s) in shares.iter().enumerate() {
        assert_eq!(s.x, big(j as i64 + 1));
        assert!(s.y >= big(0) && s.y < q);
    }
    // the same seed deals the same shares, another seed other shares
    let mut again = StdRng::seed_from_u64(2024);
    assert_eq!(encode(&big(42), 5, 3, &q, &g, &mut again), Ok((shares.clone(), commitments.clone())));
    let mut other = StdRng::seed_from_u64(2025);
    assert_ne!(encode(&big(42), 5, 3, &q, &g, &mut other), Ok((shares, commitments)));
}
