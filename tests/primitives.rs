use mental_poker::chaum_pedersen_dl_equality::{self as cp, DLEquality};
use mental_poker::el_gamal::{Ciphertext, ElGamal, Plaintext};
use mental_poker::error::CryptoError;
use mental_poker::field::{from_le_bytes_mod_order, Scalar};
use mental_poker::group::{msm, Point};
use mental_poker::pedersen::{dot_product, encode_commitments, CommitKey, Commitment, PedersenCommitment};
use mental_poker::schnorr_identification::SchnorrIdentification;
use mental_poker::transcript::FiatShamirRng;
use mental_poker::zero_value_bilinear_map::{self as zero, scalar_powers, BilinearMap};
use rand::{thread_rng, Rng};

fn random_scalar<R: Rng>(rng: &mut R) -> Scalar {
    let b: [u8; 32] = rng.gen();
    from_le_bytes_mod_order(&b)
}

fn random_point<R: Rng>(rng: &mut R) -> Point {
    Point::generator().mul(&random_scalar(rng))
}

const R_MINUS_ONE: &str = "21888242871839275222246405745257275088548364400416034343698204186575808495616";

fn le_bytes_of_decimal(s: &str) -> [u8; 32] {
    let mut out = [0u8; 32];
    for ch in s.chars() {
        let mut carry = ch.to_digit(10).unwrap() as u32;
        for b in out.iter_mut() {
            let v = (*b as u32) * 10 + carry;
            *b = (v % 256) as u8;
            carry = v / 256;
        }
    }
    out
}

#[test]
fn test_honest_prover() {
    let rng = &mut thread_rng();
    let (g, h, secret) = (random_point(rng), random_point(rng), random_scalar(rng));
    let point_a = g.mul(&secret);
    let point_b = h.mul(&secret);
    let crs = cp::Parameters::new(&g, &h);
    let statement = cp::Statement::new(&point_a, &point_b);

    let mut fs_rng = FiatShamirRng::from_seed(b"Initialised with some input");
    let proof = DLEquality::prove(&crs, &statement, &secret, &random_scalar(rng), &mut fs_rng).unwrap();
    let mut fs_rng = FiatShamirRng::from_seed(b"Initialised with some input");
    assert_eq!(DLEquality::verify(&crs, &statement, &proof, &mut fs_rng), Ok(()));
    assert_ne!(point_a, point_b);
}

#[test]
fn test_malicious_prover() {
    let rng = &mut thread_rng();
    let (g, h, secret) = (random_point(rng), random_point(rng), random_scalar(rng));
    let point_a = g.mul(&secret);
    let point_b = h.mul(&secret);
    let another_scalar = random_scalar(rng);
    let crs = cp::Parameters::new(&g, &h);
    let statement = cp::Statement::new(&point_a, &point_b);

    let mut fs_rng = FiatShamirRng::from_seed(b"Initialised with some input");
    let invalid_proof =
        DLEquality::prove(&crs, &statement, &another_scalar, &random_scalar(rng), &mut fs_rng).unwrap();
    let mut fs_rng = FiatShamirRng::from_seed(b"Initialised with some input");
    assert_eq!(
        DLEquality::verify(&crs, &statement, &invalid_proof, &mut fs_rng),
        Err(CryptoError::ProofVerificationError(String::from("Chaum-Pedersen")))
    );
}

#[test]
fn test_test_honest_prover() {
    let rng = &mut thread_rng();
    let crs = random_point(rng);
    let sk = random_scalar(rng);
    let pk = crs.mul(&sk);
    let mut fs_rng = FiatShamirRng::from_seed(b"Initialised with some input");
    let proof = SchnorrIdentification::prove(&crs, &pk, &sk, &random_scalar(rng), &mut fs_rng).unwrap();
    let mut fs_rng = FiatShamirRng::from_seed(b"Initialised with some input");
    assert_eq!(SchnorrIdentification::verify(&crs, &pk, &proof, &mut fs_rng), Ok(()));
}

#[test]
fn test_test_malicious_prover() {
    let rng = &mut thread_rng();
    let crs = random_point(rng);
    let pk = crs.mul(&random_scalar(rng));
    let another_scalar = random_scalar(rng);
    let mut fs_rng = FiatShamirRng::from_seed(b"Initialised with some input");
    let invalid_proof =
        SchnorrIdentification::prove(&crs, &pk, &another_scalar, &random_scalar(rng), &mut fs_rng).unwrap();
    let mut fs_rng = FiatShamirRng::from_seed(b"Initialised with some input");
    assert_eq!(
        SchnorrIdentification::verify(&crs, &pk, &invalid_proof, &mut fs_rng),
        Err(CryptoError::ProofVerificationError(String::from(
            "Schnorr Identification"
        )))
    );
}

#[test]
fn serialize_unserialize_test() {
    let rng = &mut thread_rng();
    let cipher = Ciphertext(random_point(rng), random_point(rng));
    let serialized = cipher.to_bytes();
    assert_eq!(serialized.len(), cipher.serialized_size());
    let deserialized = Ciphertext::from_bytes(&serialized).unwrap();
    assert_eq!(cipher, deserialized);
}

#[test]
fn elgamal_decrypts_what_it_encrypts() {
    let rng = &mut thread_rng();
    let pp = ElGamal::setup(&random_point(rng)).unwrap();
    let (pk, sk) = ElGamal::keygen(&pp, &random_scalar(rng)).unwrap();
    let m = Plaintext(random_point(rng));
    let c = ElGamal::encrypt(&pp, &pk, &m, &random_scalar(rng)).unwrap();
    assert_ne!(c.1, m.0);
    assert_eq!(ElGamal::decrypt(&pp, &sk, &c).unwrap(), m);
    let other = random_scalar(rng);
    assert_ne!(ElGamal::decrypt(&pp, &other, &c).unwrap(), m);
}

#[test]
fn elgamal_is_additively_homomorphic() {
    let rng = &mut thread_rng();
    let pp = ElGamal::setup(&Point::generator()).unwrap();
    let (pk, sk) = ElGamal::keygen(&pp, &random_scalar(rng)).unwrap();
    let (m1, m2) = (Plaintext(random_point(rng)), Plaintext(random_point(rng)));
    let c1 = ElGamal::encrypt(&pp, &pk, &m1, &random_scalar(rng)).unwrap();
    let c2 = ElGamal::encrypt(&pp, &pk, &m2, &random_scalar(rng)).unwrap();
    let sum = Ciphertext::sum(&vec![c1, c2]);
    assert_eq!(sum, c1.add(&c2));
    assert_eq!(ElGamal::decrypt(&pp, &sk, &sum).unwrap(), m1.add(&m2));
    let k = random_scalar(rng);
    assert_eq!(ElGamal::decrypt(&pp, &sk, &c1.mul(&k)).unwrap(), m1.mul(&k));
    assert!(Ciphertext::zero().is_zero());
    assert!(!c1.is_zero());
    assert!(Plaintext::zero().is_zero());
}

#[test]
fn commit_refuses_more_values_than_generators() {
    let rng = &mut thread_rng();
    let ck = CommitKey::new(vec![random_point(rng), random_point(rng), random_point(rng)], random_point(rng));
    let x: Vec<Scalar> = (0..4).map(|_| random_scalar(rng)).collect();
    assert_eq!(
        PedersenCommitment::commit(&ck, &x, random_scalar(rng)),
        Err(CryptoError::CommitmentLengthError(String::from("Pedersen"), 4, 3))
    );
    assert!(PedersenCommitment::commit(&ck, &x[..3].to_vec(), random_scalar(rng)).is_ok());
}

#[test]
fn commitments_add_up() {
    let rng = &mut thread_rng();
    let g = vec![random_point(rng), random_point(rng)];
    let h = random_point(rng);
    let ck = CommitKey::new(g.clone(), h);
    let x = vec![random_scalar(rng), random_scalar(rng)];
    let y = vec![random_scalar(rng), random_scalar(rng)];
    let (r, s) = (random_scalar(rng), random_scalar(rng));
    let cx = PedersenCommitment::commit(&ck, &x, r).unwrap();
    let cy = PedersenCommitment::commit(&ck, &y, s).unwrap();
    let xy = vec![x[0].add(&y[0]), x[1].add(&y[1])];
    let cxy = PedersenCommitment::commit(&ck, &xy, r.add(&s)).unwrap();
    assert_eq!(cx.add(&cy), cxy);
    assert_eq!(Commitment::sum(&vec![cx, cy]), cxy);
    let expected = h.mul(&r).add(&g[0].mul(&x[0])).add(&g[1].mul(&x[1]));
    assert_eq!(cx.0, expected);
    assert_eq!(msm(&vec![h, g[0], g[1]], &vec![r, x[0], x[1]]), expected);
    let k = random_scalar(rng);
    assert_eq!(dot_product(&vec![k], &vec![cx]), Ok(cx.mul(&k)));
    assert_eq!(dot_product(&vec![k, k], &vec![cx]), Err(CryptoError::InvalidLength));
    assert!(Commitment::zero().is_zero());
}

#[test]
fn transcripts_are_deterministic() {
    let mut a = FiatShamirRng::from_seed(b"seed");
    let mut b = FiatShamirRng::from_seed(b"seed");
    a.absorb(b"message");
    b.absorb(b"message");
    let (ca, cb) = (a.squeeze_scalar(), b.squeeze_scalar());
    assert_eq!(ca, cb);
    assert_eq!(a.squeeze_scalar(), b.squeeze_scalar());
    assert_ne!(a.squeeze_scalar(), ca);
    let mut c = FiatShamirRng::from_seed(b"seed");
    c.absorb(b"other message");
    assert_ne!(c.squeeze_scalar(), ca);
    let d = FiatShamirRng::from_seed(b"seed");
    let e = FiatShamirRng::from_seed(b"seeds");
    assert_ne!(d.seed, e.seed);
}

#[test]
fn scalar_arithmetic_is_modular() {
    let three = Scalar::from_u64(3);
    let four = Scalar::from_u64(4);
    assert_eq!(three.add(&four), Scalar::from_u64(7));
    assert_eq!(three.mul(&four), Scalar::from_u64(12));
    assert_eq!(four.sub(&three), Scalar::from_u64(1));
    let minus_one = three.sub(&four);
    assert_eq!(minus_one.to_bytes(), le_bytes_of_decimal(R_MINUS_ONE));
    assert_eq!(minus_one.add(&Scalar::from_u64(1)), Scalar::zero());
    assert!(three.equals(&Scalar::from_u64(3)));
    assert!(!three.equals(&four));
    assert_eq!(three.serialized_size(), 32);
}

#[test]
fn scalar_decoding_checks_the_range() {
    let below = le_bytes_of_decimal(R_MINUS_ONE);
    assert_eq!(Scalar::from_bytes(&below).unwrap().to_bytes(), below);
    let modulus = Scalar::from_bytes(&below).unwrap().add(&Scalar::from_u64(1));
    assert_eq!(modulus, Scalar::zero());
    let mut r = below;
    r[0] += 1;
    assert_eq!(Scalar::from_bytes(&r), Err(CryptoError::SerializationError));
    assert_eq!(Scalar::from_bytes(&below[..31]), Err(CryptoError::SerializationError));
    assert_eq!(from_le_bytes_mod_order(&r), Scalar::zero());
}

#[test]
fn point_encoding_matches_the_compressed_form() {
    let g = Point::generator();
    let mut expected = [0u8; 32];
    expected[0] = 1;
    assert_eq!(g.to_compressed(), expected);
    expected[31] = 0x80;
    assert_eq!(g.neg().to_compressed(), expected);
    let mut identity = [0u8; 32];
    identity[31] = 0x40;
    assert_eq!(Point::identity().to_compressed(), identity);
    assert_eq!(Point::from_compressed(&identity), Ok(Point::identity()));
    assert_eq!(Point::from_compressed(&[0xffu8; 32]), Err(CryptoError::SerializationError));
    assert_eq!(Point::from_compressed(&[1u8; 5]), Err(CryptoError::SerializationError));
    let rng = &mut thread_rng();
    let p = random_point(rng);
    assert_eq!(Point::from_compressed(&p.to_compressed()), Ok(p));
    assert_eq!(p.serialized_size(), 32);
}

#[test]
fn group_operations_agree() {
    let rng = &mut thread_rng();
    let g = Point::generator();
    assert_eq!(g.mul(&Scalar::from_u64(2)), g.add(&g));
    assert_ne!(g.add(&g), g);
    assert_eq!(g.add(&g.neg()), Point::identity());
    assert_eq!(g.add(&Point::identity()), g);
    let (a, b) = (random_scalar(rng), random_scalar(rng));
    assert_eq!(g.mul(&a.add(&b)), g.mul(&a).add(&g.mul(&b)));
    assert_eq!(g.mul(&a).mul(&b), g.mul(&a.mul(&b)));
    assert!(g.equals(&g));
    assert!(!g.equals(&g.neg()));
}

#[test]
fn bilinear_map_weights_by_powers_of_y() {
    let s = Scalar::from_u64;
    let map = BilinearMap { y: s(10) };
    assert_eq!(map.compute_mapping(&vec![s(2), s(3)], &vec![s(5), s(7)]), Ok(s(2200)));
    assert_eq!(map.compute_mapping(&vec![s(2)], &vec![s(5), s(7)]), Err(CryptoError::InvalidLength));
    assert_eq!(scalar_powers(&s(3), 3), vec![s(1), s(3), s(9), s(27)]);
}

#[test]
fn zero_argument_rejects_a_wrong_middle_diagonal() {
    let rng = &mut thread_rng();
    let ck = CommitKey::new(vec![random_point(rng), random_point(rng)], random_point(rng));
    let pp = zero::Parameters { m: 1, n: 2, commit_key: ck };
    let c = || Commitment(random_point(&mut thread_rng()));
    let statement = zero::Statement {
        commitment_to_a: vec![c()],
        commitment_to_b: vec![c()],
        bilinear_map: BilinearMap { y: random_scalar(rng) },
    };
    let proof = zero::Proof {
        a_0_commit: c(),
        b_m_commit: c(),
        vector_of_committed_diagonals: vec![c(), c(), c()],
        a_blinded: vec![random_scalar(rng)],
        b_blinded: vec![random_scalar(rng)],
        r_blinded: random_scalar(rng),
        s_blinded: random_scalar(rng),
        t_blinded: random_scalar(rng),
    };
    let mut fs_rng = FiatShamirRng::from_seed(b"zero");
    assert_eq!(
        proof.verify(&pp, &statement, &mut fs_rng),
        Err(CryptoError::ProofVerificationError(String::from("Zero Argument (5.2)")))
    );
    let mut short = proof.clone();
    short.vector_of_committed_diagonals.truncate(2);
    assert_eq!(
        short.verify(&pp, &statement, &mut fs_rng),
        Err(CryptoError::ProofVerificationError(String::from("Zero Argument (5.2)")))
    );
    let zero_commit = PedersenCommitment::commit(&pp.commit_key, &vec![Scalar::zero()], Scalar::zero()).unwrap();
    assert_eq!(zero_commit, Commitment(Point::identity()));
    let mut middle_ok = proof.clone();
    middle_ok.vector_of_committed_diagonals[2] = zero_commit;
    assert_eq!(
        middle_ok.verify(&pp, &statement, &mut fs_rng),
        Err(CryptoError::ProofVerificationError(String::from("Zero Argument (5.2)")))
    );
}

#[test]
fn zero_argument_accepts_an_honest_proof() {
    let rng = &mut thread_rng();
    let s = Scalar::from_u64;
    let ck = CommitKey::new(vec![random_point(rng), random_point(rng)], random_point(rng));
    let commit = |x: &Vec<Scalar>, r: Scalar| PedersenCommitment::commit(&ck, x, r).unwrap();
    let map = BilinearMap { y: random_scalar(rng) };
    let pp = zero::Parameters { m: 1, n: 2, commit_key: ck.clone() };

    // a_1 * b_1 = 0 under the map: the two vectors never meet on a coordinate.
    let a1 = vec![random_scalar(rng), s(0)];
    let b1 = vec![s(0), random_scalar(rng)];
    let (r1, s1) = (random_scalar(rng), random_scalar(rng));
    let statement = zero::Statement {
        commitment_to_a: vec![commit(&a1, r1)],
        commitment_to_b: vec![commit(&b1, s1)],
        bilinear_map: map,
    };

    let a0 = vec![random_scalar(rng), random_scalar(rng)];
    let b2 = vec![random_scalar(rng), random_scalar(rng)];
    let (r0, s2) = (random_scalar(rng), random_scalar(rng));
    let (t0, t1) = (random_scalar(rng), random_scalar(rng));
    let star = |a: &Vec<Scalar>, b: &Vec<Scalar>| map.compute_mapping(a, b).unwrap();
    let d0 = star(&a0, &b2);
    let d1 = star(&a0, &b1).add(&star(&a1, &b2));
    let diagonals = vec![commit(&vec![d0], t0), commit(&vec![d1], t1), commit(&vec![s(0)], s(0))];
    let a_0_commit = commit(&a0, r0);
    let b_m_commit = commit(&b2, s2);

    let mut fs_rng = FiatShamirRng::from_seed(b"zero");
    let mut prover_rng = FiatShamirRng::from_seed(b"zero");
    prover_rng.absorb(&[122u8, 101, 114, 111, 95, 97, 114, 103, 117, 109, 101, 110, 116]);
    prover_rng.absorb(&ck.to_bytes());
    prover_rng.absorb(&1u32.to_le_bytes());
    prover_rng.absorb(&2u32.to_le_bytes());
    prover_rng.absorb(&a_0_commit.0.to_compressed());
    prover_rng.absorb(&b_m_commit.0.to_compressed());
    prover_rng.absorb(&encode_commitments(&statement.commitment_to_a));
    prover_rng.absorb(&encode_commitments(&statement.commitment_to_b));
    prover_rng.absorb(&encode_commitments(&diagonals));
    let x = prover_rng.squeeze_scalar();

    let lin = |u: &Vec<Scalar>, v: &Vec<Scalar>| vec![u[0].add(&x.mul(&v[0])), u[1].add(&x.mul(&v[1]))];
    let proof = zero::Proof {
        a_0_commit,
        b_m_commit,
        vector_of_committed_diagonals: diagonals,
        a_blinded: lin(&a0, &a1),
        b_blinded: lin(&b2, &b1),
        r_blinded: r0.add(&x.mul(&r1)),
        s_blinded: s2.add(&x.mul(&s1)),
        t_blinded: t0.add(&x.mul(&t1)),
    };
    assert_eq!(proof.verify(&pp, &statement, &mut fs_rng), Ok(()));

    let bytes = proof.to_bytes();
    assert_eq!(bytes.len(), 64 + 4 + 3 * 32 + 2 * (4 + 2 * 32) + 3 * 32);
    let decoded = zero::Proof::from_bytes(&bytes).unwrap();
    assert_eq!(decoded.to_bytes(), bytes);
    let mut fs_rng = FiatShamirRng::from_seed(b"zero");
    assert_eq!(decoded.verify(&pp, &statement, &mut fs_rng), Ok(()));
    assert_eq!(zero::Proof::from_bytes(&bytes[..bytes.len() - 1]).err(), Some(CryptoError::SerializationError));

    let mut tampered = proof.clone();
    tampered.t_blinded = tampered.t_blinded.add(&s(1));
    let mut fs_rng = FiatShamirRng::from_seed(b"zero");
    assert_eq!(
        tampered.verify(&pp, &statement, &mut fs_rng),
        Err(CryptoError::ProofVerificationError(String::from("Zero Argument (5.2)")))
    );
}

#[test]
fn commit_key_and_parameters_round_trip() {
    let rng = &mut thread_rng();
    let ck = CommitKey::new(vec![random_point(rng), random_point(rng), random_point(rng)], random_point(rng));
    let bytes = ck.to_bytes();
    assert_eq!(bytes.len(), 4 + 3 * 32 + 32);
    assert_eq!(&bytes[..4], &[3u8, 0, 0, 0]);
    let back = CommitKey::from_bytes(&bytes).unwrap();
    assert_eq!(back.g, ck.g);
    assert_eq!(back.h, ck.h);
    assert_eq!(CommitKey::from_bytes(&bytes[..bytes.len() - 1]).err(), Some(CryptoError::SerializationError));

    let pp = ElGamal::setup(&random_point(rng)).unwrap();
    assert_eq!(mental_poker::el_gamal::Parameters::from_bytes(&pp.to_bytes()), Ok(pp));
}
