#![allow(non_snake_case)]
use nalgebra::DMatrix;
use pazk::field::FieldElement;
use pazk::freivalds;
use pazk::lagrange::{LagrangeBasisPolynomial, MonomialBasisPolynomial};
use pazk::matrix::Matrix;
use pazk::multilinear::{chi_w, multilinear_f, number_to_bitvec};
use pazk::reed_solomon;
use pazk::reed_solomon::RawData;
use pazk::sumcheck;
use pazk::sumcheck::{Phase, ProverPolynomial, SumCheckError, ToyPolynomial};
use rand_core::OsRng;

fn fe(n: u64) -> FieldElement {
    FieldElement::from_u64(n)
}

fn matrix_of(m: &DMatrix<u64>) -> Matrix {
    let data: Vec<FieldElement> = m.iter().map(|v| fe(*v)).collect();
    Matrix::from_column_major(m.nrows(), m.ncols(), data).unwrap()
}

#[test]
fn matmul_equal() {
    let A = DMatrix::from_iterator(3, 3, 1..10u64);
    let B = DMatrix::from_iterator(3, 3, 1..10u64);
    let correct_C = A.clone() * B.clone();
    let _prover = freivalds::Prover {
        A: matrix_of(&A),
        B: matrix_of(&B),
        C: matrix_of(&correct_C),
    };
    let verifier = freivalds::Verifier {
        A: matrix_of(&A),
        B: matrix_of(&B),
        C: matrix_of(&correct_C),
    };
    assert!(verifier.run(&mut OsRng));
}

#[test]
fn matmul_not_equal() {
    let A = DMatrix::from_iterator(3, 3, 1..10u64);
    let B = DMatrix::from_iterator(3, 3, 1..10u64);
    let incorrect_C = B.clone();
    let _prover = freivalds::Prover {
        A: matrix_of(&A),
        B: matrix_of(&B),
        C: matrix_of(&incorrect_C),
    };
    let verifier = freivalds::Verifier {
        A: matrix_of(&A),
        B: matrix_of(&B),
        C: matrix_of(&incorrect_C),
    };
    assert!(!verifier.run(&mut OsRng));
}

#[test]
fn freivalds_rejects_in_every_one_of_many_trials() {
    let A = DMatrix::from_iterator(3, 3, 1..10u64);
    let verifier = freivalds::Verifier {
        A: matrix_of(&A),
        B: matrix_of(&A),
        C: matrix_of(&A),
    };
    let mut rejected = 0;
    for _ in 0..1000 {
        if !verifier.run(&mut OsRng) {
            rejected += 1;
        }
    }
    assert_eq!(rejected, 1000);
}

#[test]
fn freivalds_check_at_a_fixed_challenge() {
    // A = [[1, 2], [3, 4]], B = [[0, 1], [1, 0]], A B = [[2, 1], [4, 3]].
    let a = Matrix::from_column_major(2, 2, vec![fe(1), fe(3), fe(2), fe(4)]).unwrap();
    let b = Matrix::from_column_major(2, 2, vec![fe(0), fe(1), fe(1), fe(0)]).unwrap();
    let c = Matrix::from_column_major(2, 2, vec![fe(2), fe(4), fe(1), fe(3)]).unwrap();
    let good = freivalds::Verifier { A: a, B: b, C: c };
    assert!(good.check(&fe(2)));
    assert!(good.check(&fe(0)));

    // With C = A the two sides are (1 r + 2 r^2, 3 r + 4 r^2) and (2 r + r^2, 4 r + 3 r^2):
    // they agree at r = 0 and r = 1 and nowhere else.
    let a = Matrix::from_column_major(2, 2, vec![fe(1), fe(3), fe(2), fe(4)]).unwrap();
    let b = Matrix::from_column_major(2, 2, vec![fe(0), fe(1), fe(1), fe(0)]).unwrap();
    let c = Matrix::from_column_major(2, 2, vec![fe(1), fe(3), fe(2), fe(4)]).unwrap();
    let bad = freivalds::Verifier { A: a, B: b, C: c };
    assert!(!bad.check(&fe(2)));
    assert!(bad.check(&fe(1)));
    assert!(bad.check(&fe(0)));
}

#[test]
fn freivalds_rectangular_shapes() {
    // A is 1 x 2, B is 2 x 3, C = A B is 1 x 3.
    let a = Matrix::from_column_major(1, 2, vec![fe(1), fe(2)]).unwrap();
    let b =
        Matrix::from_column_major(2, 3, vec![fe(1), fe(4), fe(2), fe(5), fe(3), fe(6)]).unwrap();
    let c = Matrix::from_column_major(1, 3, vec![fe(9), fe(12), fe(15)]).unwrap();
    let verifier = freivalds::Verifier { A: a, B: b, C: c };
    assert!(verifier.check(&fe(7)));
    assert!(verifier.run(&mut OsRng));
}

#[test]
fn matrix_shape_is_checked() {
    assert!(Matrix::from_column_major(2, 2, vec![fe(1), fe(2), fe(3)]).is_none());
    assert!(Matrix::from_column_major(usize::MAX, 2, vec![fe(1)]).is_none());
    let m = Matrix::from_column_major(2, 3, vec![fe(0); 6]).unwrap();
    assert_eq!(m.nrows(), 2);
    assert_eq!(m.ncols(), 3);
    assert_eq!(freivalds::challenge_vector(&fe(3), 3), vec![fe(3), fe(9), fe(27)]);
    assert!(freivalds::vectors_equal(&vec![fe(1), fe(2)], &vec![fe(1), fe(2)]));
    assert!(!freivalds::vectors_equal(&vec![fe(1), fe(2)], &vec![fe(1), fe(3)]));
    assert!(!freivalds::vectors_equal(&vec![fe(1)], &vec![fe(1), fe(3)]));
}

#[test]
fn lagrange_basis_polynomial() {
    let l0 = LagrangeBasisPolynomial { i: 0, n: 4 };
    assert_eq!(l0.evaluate(fe(0)), FieldElement::one());
    assert_eq!(l0.evaluate(fe(1)), FieldElement::zero());
    assert_eq!(l0.evaluate(fe(2)), FieldElement::zero());

    let l1 = LagrangeBasisPolynomial { i: 1, n: 4 };
    assert_eq!(l1.evaluate(fe(0)), FieldElement::zero());
    assert_eq!(l1.evaluate(fe(1)), FieldElement::one());
    assert_eq!(l1.evaluate(fe(2)), FieldElement::zero());
}

#[test]
fn lagrange_basis_is_kronecker_on_the_grid() {
    for n in 1..6usize {
        for i in 0..n {
            let l = LagrangeBasisPolynomial { i, n };
            for j in 0..n {
                let expected = if i == j { FieldElement::one() } else { FieldElement::zero() };
                assert_eq!(l.evaluate(fe(j as u64)), expected);
            }
        }
    }
}

#[test]
fn lagrange_basis_off_the_grid() {
    // Over the grid {0, 1}: L_0(X) = 1 - X and L_1(X) = X.
    let l0 = LagrangeBasisPolynomial { i: 0, n: 2 };
    let l1 = LagrangeBasisPolynomial { i: 1, n: 2 };
    assert_eq!(l0.evaluate(fe(3)), FieldElement::from_i128(-2));
    assert_eq!(l1.evaluate(fe(3)), fe(3));
    // Over {0, 1, 2}: L_1(X) = X (X - 2) / (1 * -1), so L_1(4) = -8.
    let l = LagrangeBasisPolynomial { i: 1, n: 3 };
    assert_eq!(l.evaluate(fe(4)), FieldElement::from_i128(-8));
    // With no grid point but its own, the polynomial is constantly 1.
    let l = LagrangeBasisPolynomial { i: 0, n: 1 };
    assert_eq!(l.evaluate(fe(77)), FieldElement::one());
}

#[test]
fn polynomial_representation() {
    let p = MonomialBasisPolynomial {
        a: vec![
            FieldElement::one(),
            FieldElement::one(),
            FieldElement::one(),
            FieldElement::one(),
        ],
    };
    assert_eq!(p.evaluate(fe(0)), fe(1));
    assert_eq!(p.evaluate(fe(1)), fe(4));
    assert_eq!(p.evaluate(fe(2)), fe(15));

    assert_eq!(fe(1), p.lagrange_coeff(fe(0)));
    assert_eq!(fe(1), p.lagrange_coeff(fe(1)));
    assert_eq!(fe(1), p.lagrange_coeff(fe(2)));
}

#[test]
fn monomial_polynomial_values() {
    // 5 - X + 2 X^2 at 3 is 5 - 3 + 18 = 20.
    let p = MonomialBasisPolynomial { a: vec![fe(5), FieldElement::from_i128(-1), fe(2)] };
    assert_eq!(p.evaluate(fe(3)), fe(20));
    // X - 1 vanishes at 1, so -1 is the additive inverse of 1.
    let p = MonomialBasisPolynomial { a: vec![FieldElement::from_i128(-1), fe(1)] };
    assert_eq!(p.evaluate(fe(1)), FieldElement::zero());
    let empty = MonomialBasisPolynomial { a: vec![] };
    assert_eq!(empty.evaluate(fe(9)), FieldElement::zero());
    // The weights of 7 + 3 X + 4 X^2 at grid point 1 pick the coefficient after it.
    let p = MonomialBasisPolynomial { a: vec![fe(7), fe(3), fe(4)] };
    assert_eq!(p.lagrange_coeff(fe(0)), fe(3));
    assert_eq!(p.lagrange_coeff(fe(1)), fe(4));
}

#[test]
fn simple_lemma37() {
    assert_eq!(number_to_bitvec(4, 3), vec![true, false, false]);
    assert_eq!(number_to_bitvec(4, 4), vec![false, true, false, false]);

    // f(0) = 0, f(1) = 0
    let f_tilde = multilinear_f(&vec![0, 1], &vec![0, 0]);
    assert_eq!(f_tilde, FieldElement::zero());

    // f(0) = 1, f(1) = 1
    let f_tilde = multilinear_f(&vec![0, 1], &vec![1, 1]);
    assert_eq!(f_tilde, FieldElement::one());
}

#[test]
fn bit_vectors_edge_cases() {
    assert_eq!(number_to_bitvec(0, 0), vec![false]);
    assert_eq!(number_to_bitvec(0, 3), vec![false, false, false]);
    assert_eq!(number_to_bitvec(1, 1), vec![true]);
    assert_eq!(number_to_bitvec(5, 2), vec![true, false, true]);
    assert_eq!(number_to_bitvec(6, 5), vec![false, false, true, true, false]);
    assert_eq!(number_to_bitvec(usize::MAX, 3), vec![true; usize::BITS as usize]);
}

#[test]
fn indicator_values() {
    // chi_w at a vertex is 1 at w itself and 0 at every other vertex.
    assert_eq!(chi_w(&vec![true, false], &vec![1, 0]), FieldElement::one());
    assert_eq!(chi_w(&vec![true, false], &vec![1, 1]), FieldElement::zero());
    assert_eq!(chi_w(&vec![true, false], &vec![0, 0]), FieldElement::zero());
    // Off the cube: w = (1, 0), x = (3, 5) gives 3 * (1 - 5) = -12.
    assert_eq!(chi_w(&vec![true, false], &vec![3, 5]), FieldElement::from_i128(-12));
    assert_eq!(chi_w(&vec![], &vec![]), FieldElement::one());
    // Large inputs are reduced in the field, with no overflow.
    assert_eq!(
        chi_w(&vec![true, true], &vec![i128::MAX, 2]),
        MonomialBasisPolynomial { a: vec![FieldElement::zero(), fe(2)] }
            .evaluate(FieldElement::from_i128(i128::MAX))
    );
}

#[test]
fn multilinear_extension_agrees_on_vertices() {
    // With three variables the table has entries for the vertices 000, 001, 010.
    let fws = vec![11, -7, 5];
    assert_eq!(multilinear_f(&vec![0, 0, 0], &fws), fe(11));
    assert_eq!(multilinear_f(&vec![0, 0, 1], &fws), FieldElement::from_i128(-7));
    assert_eq!(multilinear_f(&vec![0, 1, 0], &fws), fe(5));
    // Off the cube, at (0, 0, 2): 11 * (1 - 2) + -7 * 2 = -25.
    assert_eq!(multilinear_f(&vec![0, 0, 2], &fws), FieldElement::from_i128(-25));
    assert_eq!(multilinear_f(&vec![], &vec![]), FieldElement::zero());
}

#[test]
fn reed_solomon_equal() {
    let alice_data = RawData(vec![1, 2, 3]);
    let bob_data = RawData(vec![1, 2, 3]);
    let prover = reed_solomon::Prover { data: alice_data };
    let verifier = reed_solomon::Verifier { data: bob_data };
    let (r, v) = prover.run(&mut OsRng);
    assert!(verifier.run(v, r));
}

#[test]
fn reed_solomon_not_equal() {
    let alice_data = RawData(vec![1, 2, 3]);
    let bob_data = RawData(vec![4, 5, 6]);
    let prover = reed_solomon::Prover { data: alice_data };
    let verifier = reed_solomon::Verifier { data: bob_data };
    let (r, v) = prover.run(&mut OsRng);
    assert!(!verifier.run(v, r));
}

#[test]
fn reed_solomon_fingerprint_values() {
    let r = reed_solomon::ChallengeElement(fe(2));
    // 1 + 2 * 2 + 3 * 4 = 17
    assert_eq!(RawData(vec![1, 2, 3]).reed_solomon_encoding(&r).0, fe(17));
    assert_eq!(RawData(vec![]).reed_solomon_encoding(&r).0, FieldElement::zero());
    assert_eq!(RawData(vec![255]).reed_solomon_encoding(&r).0, fe(255));
    // Trailing zero bytes do not change the fingerprint.
    assert_eq!(RawData(vec![1, 2, 3, 0, 0]).reed_solomon_encoding(&r).0, fe(17));
    // The same data matches at every challenge tried; different data at 2 does not.
    for c in 0..50u64 {
        let e = RawData(vec![9, 8, 7]).reed_solomon_encoding(&reed_solomon::ChallengeElement(fe(c)));
        let verifier = reed_solomon::Verifier { data: RawData(vec![9, 8, 7]) };
        assert!(verifier.run(reed_solomon::ChallengeElement(fe(c)), e));
    }
    let verifier = reed_solomon::Verifier { data: RawData(vec![4, 5, 6]) };
    assert!(!verifier.run(
        reed_solomon::ChallengeElement(fe(2)),
        reed_solomon::Evaluation(fe(17))
    ));
    // 4 + 5 * 2 + 6 * 4 = 38
    assert!(verifier.run(
        reed_solomon::ChallengeElement(fe(2)),
        reed_solomon::Evaluation(fe(38))
    ));
}

fn toy_table() -> Vec<FieldElement> {
    let mut table = Vec::new();
    for x in 0..2u64 {
        for y in 0..2u64 {
            for z in 0..2u64 {
                table.push(fe(x * x * y * y * z));
            }
        }
    }
    table
}

#[test]
fn sumcheck_example_execution_honest_prover() {
    let mut prover = sumcheck::Prover { table: toy_table() };
    let mut verifier = sumcheck::Verifier::new();
    let poly = ToyPolynomial { X: 1, Y: 1, Z: 1 };
    assert_eq!(poly.evaluate(), 1);

    let C_1 = prover.setup();
    assert_eq!(C_1, fe(1));
    verifier.set_C1(C_1);

    let round_1 = prover.first_round();
    assert!(verifier.process_first_round(&round_1).is_ok());
    let challenge_1 = verifier.generate_challenge(&mut OsRng).unwrap();

    let round_2 = prover.jth_round(challenge_1);
    assert!(verifier.process_jth_round(&round_2).is_ok());
    let challenge_2 = verifier.generate_challenge(&mut OsRng).unwrap();

    let round_3 = prover.jth_round(challenge_2);
    assert!(verifier.process_jth_round(&round_3).is_ok());
    let _challenge_3 = verifier.generate_challenge(&mut OsRng).unwrap();
    assert_eq!(verifier.claim, C_1);

    assert_eq!(verifier.challenges.len(), 3);
    let oracle = sumcheck::evaluate_extension(&toy_table(), &verifier.challenges);
    assert!(verifier.finish(&oracle));
}

#[test]
fn sumcheck_wrong_claim_is_rejected_in_round_one() {
    let prover = sumcheck::Prover { table: toy_table() };
    for wrong in [0u64, 2, 3, 1000] {
        let mut verifier = sumcheck::Verifier::new();
        verifier.set_C1(fe(wrong));
        let round_1 = prover.first_round();
        assert_eq!(verifier.process_first_round(&round_1), Err(SumCheckError::Inconsistent));
    }
}

#[test]
fn sumcheck_fixed_challenges() {
    // g = X Y Z on the cube; the rounds at the challenges 2, 3, 5.
    let mut prover = sumcheck::Prover { table: toy_table() };
    let mut verifier = sumcheck::Verifier::new();
    verifier.set_C1(prover.setup());
    assert_eq!(verifier.standing_claim(), fe(1));

    let m1 = prover.first_round();
    assert_eq!(m1, ProverPolynomial { at_zero: fe(0), at_one: fe(1) });
    assert_eq!(verifier.process_jth_round(&m1), Err(SumCheckError::WrongRound));
    assert_eq!(verifier.process_first_round(&m1), Ok(()));
    assert_eq!(verifier.phase, Phase::ChallengeDue);
    assert_eq!(verifier.issue_challenge(fe(2)), Ok(()));
    assert_eq!(verifier.claim, fe(1));
    assert_eq!(verifier.standing_claim(), fe(2));
    assert_eq!(verifier.process_first_round(&m1), Err(SumCheckError::WrongRound));

    let m2 = prover.jth_round(sumcheck::ChallengeElement(fe(2)));
    assert_eq!(prover.table, vec![fe(0), fe(0), fe(0), fe(2)]);
    assert_eq!(m2, ProverPolynomial { at_zero: fe(0), at_one: fe(2) });
    assert_eq!(verifier.process_jth_round(&m2), Ok(()));
    assert_eq!(verifier.issue_challenge(fe(3)), Ok(()));
    assert_eq!(verifier.claim, fe(1));
    assert_eq!(verifier.standing_claim(), fe(6));

    let m3 = prover.jth_round(sumcheck::ChallengeElement(fe(3)));
    assert_eq!(m3, ProverPolynomial { at_zero: fe(0), at_one: fe(6) });
    assert_eq!(verifier.process_jth_round(&m3), Ok(()));
    assert_eq!(verifier.issue_challenge(fe(5)), Ok(()));
    assert_eq!(verifier.claim, fe(1));
    assert_eq!(verifier.standing_claim(), fe(30));
    assert_eq!(verifier.challenges, vec![fe(2), fe(3), fe(5)]);
    assert_eq!(verifier.last, m3);
    assert_eq!(verifier.phase, Phase::MessageDue);

    let oracle = sumcheck::evaluate_extension(&toy_table(), &verifier.challenges);
    assert_eq!(oracle, fe(30));
    assert!(verifier.finish(&oracle));
    assert!(!verifier.finish(&fe(31)));
}

#[test]
fn sumcheck_calls_out_of_turn_are_refused() {
    let m = ProverPolynomial { at_zero: fe(2), at_one: fe(3) };
    let mut verifier = sumcheck::Verifier::new();
    assert_eq!(verifier.phase, Phase::Setup);
    // Before a claimed sum is recorded nothing is due.
    assert_eq!(verifier.process_first_round(&m), Err(SumCheckError::WrongRound));
    assert_eq!(verifier.process_jth_round(&m), Err(SumCheckError::WrongRound));
    assert_eq!(verifier.issue_challenge(fe(9)), Err(SumCheckError::WrongRound));
    assert_eq!(verifier.generate_challenge(&mut OsRng), Err(SumCheckError::WrongRound));
    assert!(!verifier.finish(&fe(0)));
    assert_eq!(verifier.phase, Phase::Setup);

    verifier.set_C1(fe(5));
    assert_eq!(verifier.phase, Phase::MessageDue);
    // No challenge before a message is accepted; the claimed sum stays.
    assert_eq!(verifier.generate_challenge(&mut OsRng), Err(SumCheckError::WrongRound));
    assert_eq!(verifier.issue_challenge(fe(9)), Err(SumCheckError::WrongRound));
    assert_eq!(verifier.claim, fe(5));
    assert!(verifier.challenges.is_empty());

    assert_eq!(verifier.process_first_round(&m), Ok(()));
    // No second message before the challenge, and no final check either.
    assert_eq!(verifier.process_first_round(&m), Err(SumCheckError::WrongRound));
    assert_eq!(verifier.process_jth_round(&m), Err(SumCheckError::WrongRound));
    assert!(!verifier.finish(&fe(5)));
    assert_eq!(verifier.phase, Phase::ChallengeDue);

    let c = verifier.generate_challenge(&mut OsRng).unwrap();
    assert_eq!(verifier.challenges, vec![c.0]);
    assert_eq!(verifier.claim, fe(5));
    assert_eq!(verifier.last, m);
    assert_eq!(verifier.standing_claim(), m.evaluate(&c.0));
    // No second challenge before the next message.
    assert_eq!(verifier.issue_challenge(fe(9)), Err(SumCheckError::WrongRound));
    assert_eq!(verifier.challenges, vec![c.0]);
}

#[test]
fn sumcheck_rejection_ends_the_run() {
    let mut verifier = sumcheck::Verifier::new();
    verifier.set_C1(fe(5));
    let good = ProverPolynomial { at_zero: fe(2), at_one: fe(3) };
    let lying = ProverPolynomial { at_zero: fe(2), at_one: fe(4) };
    assert_eq!(verifier.process_first_round(&lying), Err(SumCheckError::Inconsistent));
    assert_eq!(verifier.phase, Phase::Rejected);
    // Nothing is accepted after a failed check, not even a consistent message.
    assert_eq!(verifier.process_first_round(&good), Err(SumCheckError::WrongRound));
    assert_eq!(verifier.issue_challenge(fe(1)), Err(SumCheckError::WrongRound));
    assert!(!verifier.finish(&fe(5)));
    assert_eq!(verifier.phase, Phase::Rejected);
    assert_eq!(verifier.claim, fe(5));

    // A failed check in a later round ends the run as well.
    let mut verifier = sumcheck::Verifier::new();
    verifier.set_C1(fe(5));
    assert_eq!(verifier.process_first_round(&good), Ok(()));
    assert_eq!(verifier.issue_challenge(fe(2)), Ok(()));
    assert_eq!(verifier.standing_claim(), fe(4));
    let wrong = ProverPolynomial { at_zero: fe(1), at_one: fe(4) };
    assert_eq!(verifier.process_jth_round(&wrong), Err(SumCheckError::Inconsistent));
    assert_eq!(verifier.last, good);
    let right = ProverPolynomial { at_zero: fe(1), at_one: fe(3) };
    assert_eq!(verifier.process_jth_round(&right), Err(SumCheckError::WrongRound));
    assert!(!verifier.finish(&fe(4)));

    // Recording a claimed sum opens a fresh run.
    verifier.set_C1(fe(4));
    assert!(verifier.challenges.is_empty());
    assert_eq!(verifier.process_first_round(&right), Ok(()));
}

#[test]
fn sumcheck_helpers() {
    let t = vec![fe(1), fe(2), fe(3), fe(4)];
    assert_eq!(sumcheck::sum_range(&t, 1, 2), fe(5));
    assert_eq!(sumcheck::sum_range(&t, 0, 0), FieldElement::zero());
    // Fixing the first variable to 10: 1 + 10 (3 - 1) = 21 and 2 + 10 (4 - 2) = 22.
    assert_eq!(sumcheck::fold_table(&t, &fe(10)), vec![fe(21), fe(22)]);
    let line = ProverPolynomial { at_zero: fe(7), at_one: fe(4) };
    assert_eq!(line.evaluate(&fe(0)), fe(7));
    assert_eq!(line.evaluate(&fe(1)), fe(4));
    assert_eq!(line.evaluate(&fe(2)), fe(1));
    assert_eq!(line.evaluate(&fe(3)), FieldElement::from_i128(-2));
    assert_eq!(sumcheck::evaluate_extension(&vec![], &vec![fe(1)]), FieldElement::zero());
    assert_eq!(sumcheck::evaluate_extension(&t, &vec![]), fe(1));
}

#[test]
fn field_element_construction() {
    assert_eq!(FieldElement::from_u64(0), FieldElement::zero());
    assert_eq!(FieldElement::from_u64(1), FieldElement::one());
    assert_eq!(FieldElement::from_i128(5), fe(5));
    assert_eq!(fe(5).to_limbs(), [5, 0, 0, 0, 0, 0]);
    // -1 is the modulus less one.
    assert_eq!(
        FieldElement::from_i128(-1).to_limbs(),
        [
            0x8508c00000000000,
            0x170b5d4430000000,
            0x1ef3622fba094800,
            0x1a22d9f300f5138f,
            0xc63b05c06ca1493b,
            0x1ae3a4617c510ea
        ]
    );
}

#[test]
fn field_element_from_limbs() {
    let minus_one = FieldElement::from_i128(-1);
    assert_eq!(FieldElement::from_limbs(minus_one.to_limbs()), Some(minus_one));
    assert_eq!(FieldElement::from_limbs([7, 0, 0, 0, 0, 0]), Some(fe(7)));
    // The characteristic itself is not reduced, nor is anything above it.
    let mut limbs = minus_one.to_limbs();
    limbs[0] += 1;
    assert_eq!(FieldElement::from_limbs(limbs), None);
    assert_eq!(FieldElement::from_limbs([u64::MAX; 6]), None);
}

#[test]
fn sumcheck_whole_protocol() {
    // A true claim is accepted whatever the challenges, a false one never.
    for _ in 0..20 {
        assert!(sumcheck::run_protocol(&toy_table(), fe(1), 3, &mut OsRng));
        assert!(!sumcheck::run_protocol(&toy_table(), fe(0), 3, &mut OsRng));
        assert!(!sumcheck::run_protocol(&toy_table(), fe(2), 3, &mut OsRng));
    }
    let table = vec![fe(3), fe(1), fe(4), fe(1)];
    assert!(sumcheck::run_protocol(&table, fe(9), 2, &mut OsRng));
    assert!(!sumcheck::run_protocol(&table, fe(10), 2, &mut OsRng));
    // With no variable the claim is held against the one value.
    assert!(sumcheck::run_protocol(&vec![fe(5)], fe(5), 0, &mut OsRng));
    assert!(!sumcheck::run_protocol(&vec![fe(5)], fe(6), 0, &mut OsRng));
}

#[test]
fn reed_solomon_rejects_in_every_one_of_many_trials() {
    let prover = reed_solomon::Prover { data: RawData(vec![1, 2, 3]) };
    let same = reed_solomon::Verifier { data: RawData(vec![1, 2, 3]) };
    let other = reed_solomon::Verifier { data: RawData(vec![4, 5, 6]) };
    for _ in 0..200 {
        let (v, r) = prover.run(&mut OsRng);
        assert!(same.run(r, v));
        assert!(!other.run(r, v));
    }
}

#[test]
fn indicators_add_up_to_one() {
    for x in [vec![3i128, 5], vec![0, 1], vec![-7, 12], vec![i128::MAX, i128::MIN]] {
        let values: Vec<FieldElement> =
            (0..4).map(|i| chi_w(&number_to_bitvec(i, 2), &x)).collect();
        assert_eq!(sumcheck::sum_range(&values, 0, 4), FieldElement::one());
    }
    let x = vec![2i128, -3, 9];
    let values: Vec<FieldElement> = (0..8).map(|i| chi_w(&number_to_bitvec(i, 3), &x)).collect();
    assert_eq!(sumcheck::sum_range(&values, 0, 8), FieldElement::one());
}

#[test]
fn multilinear_extension_is_affine_in_each_coordinate() {
    let fws = vec![11, -7, 5];
    for j in 0..3 {
        for t in [-4i128, 2, 9] {
            let mut x = vec![3i128, -2, 6];
            x[j] = 0;
            let at_zero = multilinear_f(&x, &fws);
            x[j] = 1;
            let at_one = multilinear_f(&x, &fws);
            x[j] = t;
            let line = ProverPolynomial { at_zero, at_one };
            assert_eq!(multilinear_f(&x, &fws), line.evaluate(&FieldElement::from_i128(t)));
        }
    }
}
