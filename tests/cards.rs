use mental_poker::chaum_pedersen_dl_equality::Proof as MaskingProof;
use mental_poker::discrete_log_cards::{DLCards, Parameters};
use mental_poker::el_gamal::{Ciphertext, Plaintext};
use mental_poker::error::{CardProtocolError, CryptoError};
use mental_poker::field::{from_le_bytes_mod_order, Scalar};
use mental_poker::group::Point;
use mental_poker::pedersen::CommitKey;
use mental_poker::schnorr_identification::Proof as KeyProof;
use rand::{thread_rng, Rng};

fn random_scalar<R: Rng>(rng: &mut R) -> Scalar {
    let b: [u8; 32] = rng.gen();
    from_le_bytes_mod_order(&b)
}

fn random_point<R: Rng>(rng: &mut R) -> Point {
    Point::generator().mul(&random_scalar(rng))
}

fn random_ciphertext<R: Rng>(rng: &mut R) -> Ciphertext {
    Ciphertext(random_point(rng), random_point(rng))
}

fn setup<R: Rng>(rng: &mut R, m: usize, n: usize) -> Parameters {
    let g: Vec<Point> = (0..m).map(|_| random_point(rng)).collect();
    let h = random_point(rng);
    DLCards::setup(m, n, &random_point(rng), CommitKey::new(g, h)).unwrap()
}

fn setup_players<R: Rng>(
    rng: &mut R,
    parameters: &Parameters,
    num_of_players: usize,
) -> (Vec<(Point, Scalar, Vec<u8>)>, Point) {
    let mut players = Vec::with_capacity(num_of_players);
    let mut expected_shared_key = Point::identity();
    for i in 0..num_of_players {
        let (pk, sk) = DLCards::player_keygen(parameters, &random_scalar(rng)).unwrap();
        let info = random_scalar(rng).to_bytes().to_vec();
        players.push((pk, sk, info));
        expected_shared_key = expected_shared_key.add(&players[i].0);
    }
    (players, expected_shared_key)
}

#[test]
fn test_verify_masking() {
    let rng = &mut thread_rng();
    let m = 4;
    let n = 13;
    let parameters = setup(rng, m, n);
    let (_, aggregate_key) = setup_players(rng, &parameters, parameters.n);

    let some_card = Plaintext(random_point(rng));
    let some_random = random_scalar(rng);
    let omega = random_scalar(rng);
    let (masked, masking_proof) =
        DLCards::mask(&parameters, &aggregate_key, &some_card, &some_random, &omega).unwrap();

    let data = masking_proof.to_bytes();
    assert_eq!(data.len(), masking_proof.serialized_size());
    let masking_proof = MaskingProof::from_bytes(&data).unwrap();

    assert_eq!(
        Ok(()),
        DLCards::verify_mask(&parameters, &aggregate_key, &some_card, &masked, &masking_proof)
    );

    let wrong_masked = random_ciphertext(rng);
    assert_eq!(
        DLCards::verify_mask(&parameters, &aggregate_key, &some_card, &wrong_masked, &masking_proof),
        Err(CryptoError::ProofVerificationError(String::from("Chaum-Pedersen")))
    );
}

#[test]
fn generate_and_verify_key() {
    let rng = &mut thread_rng();
    let parameters = setup(rng, 4, 13);

    let (pk, sk) = DLCards::player_keygen(&parameters, &random_scalar(rng)).unwrap();
    let player_name = b"Alice";

    let p1_keyproof =
        DLCards::prove_key_ownership(&parameters, &pk, &sk, player_name, &random_scalar(rng)).unwrap();
    let data = p1_keyproof.to_bytes();
    assert_eq!(data.len(), p1_keyproof.serialized_size());
    let p1_keyproof = KeyProof::from_bytes(&data).unwrap();

    assert_eq!(
        Ok(()),
        DLCards::verify_key_ownership(&parameters, &pk, player_name, &p1_keyproof)
    );

    let other_key = random_scalar(rng);
    let wrong_proof =
        DLCards::prove_key_ownership(&parameters, &pk, &other_key, player_name, &random_scalar(rng))
            .unwrap();
    assert_eq!(
        DLCards::verify_key_ownership(&parameters, &pk, player_name, &wrong_proof),
        Err(CryptoError::ProofVerificationError(String::from(
            "Schnorr Identification"
        )))
    );
}

#[test]
fn aggregate_keys() {
    let rng = &mut thread_rng();
    let parameters = setup(rng, 4, 13);
    let num_of_players = 10;
    let (players, expected_shared_key) = setup_players(rng, &parameters, num_of_players);

    let mut key_proof_info: Vec<(Point, KeyProof, Vec<u8>)> = players
        .iter()
        .map(|player| {
            let proof = DLCards::prove_key_ownership(
                &parameters,
                &player.0,
                &player.1,
                &player.2,
                &random_scalar(rng),
            )
            .unwrap();
            (player.0, proof, player.2.clone())
        })
        .collect();

    key_proof_info = key_proof_info
        .iter()
        .map(|info| {
            let pk = Point::from_compressed(&info.0.to_compressed()).unwrap();
            let proof = KeyProof::from_bytes(&info.1.to_bytes()).unwrap();
            (pk, proof, info.2.clone())
        })
        .collect();

    let test_aggregate = DLCards::compute_aggregate_key(&parameters, &key_proof_info).unwrap();
    assert_eq!(test_aggregate, expected_shared_key);

    let mut bad_key_proof_pairs = key_proof_info;
    bad_key_proof_pairs[0].0 = Point::identity();
    let test_fail_aggregate = DLCards::compute_aggregate_key(&parameters, &bad_key_proof_pairs);
    assert_eq!(
        test_fail_aggregate,
        Err(CardProtocolError::ProofVerificationError(
            CryptoError::ProofVerificationError(String::from("Schnorr Identification"))
        ))
    );
}

#[test]
fn test_unmask() {
    let rng = &mut thread_rng();
    let parameters = setup(rng, 4, 13);
    let num_of_players = 10;
    let (players, expected_shared_key) = setup_players(rng, &parameters, num_of_players);

    let card = Plaintext(random_point(rng));
    let alpha = random_scalar(rng);
    let (masked, _) =
        DLCards::mask(&parameters, &expected_shared_key, &card, &alpha, &random_scalar(rng)).unwrap();

    let decryption_key: Vec<(Point, MaskingProof, Point)> = players
        .iter()
        .map(|player| {
            let (token, proof) = DLCards::compute_reveal_token(
                &parameters,
                &player.1,
                &player.0,
                &masked,
                &random_scalar(rng),
            )
            .unwrap();
            (token, proof, player.0)
        })
        .collect();

    let unmasked = DLCards::unmask(&parameters, &decryption_key, &masked).unwrap();
    assert_eq!(card, unmasked);

    let mut bad_decryption_key = decryption_key;
    bad_decryption_key[0].0 = random_point(rng);
    let failed_decryption = DLCards::unmask(&parameters, &bad_decryption_key, &masked);
    assert_eq!(
        failed_decryption,
        Err(CardProtocolError::ProofVerificationError(
            CryptoError::ProofVerificationError(String::from("Chaum-Pedersen"))
        ))
    );
}

#[test]
fn remask_keeps_the_card_and_verifies() {
    let rng = &mut thread_rng();
    let parameters = setup(rng, 4, 13);
    let (players, shared_key) = setup_players(rng, &parameters, 3);
    let card = Plaintext(random_point(rng));
    let (masked, _) =
        DLCards::mask(&parameters, &shared_key, &card, &random_scalar(rng), &random_scalar(rng)).unwrap();
    let (remasked, proof) =
        DLCards::remask(&parameters, &shared_key, &masked, &random_scalar(rng), &random_scalar(rng)).unwrap();
    assert_ne!(masked, remasked);
    assert_eq!(
        Ok(()),
        DLCards::verify_remask(&parameters, &shared_key, &masked, &remasked, &proof)
    );
    let other = random_ciphertext(rng);
    assert_eq!(
        DLCards::verify_remask(&parameters, &shared_key, &masked, &other, &proof),
        Err(CryptoError::ProofVerificationError(String::from("Chaum-Pedersen")))
    );
    let decryption_key: Vec<(Point, MaskingProof, Point)> = players
        .iter()
        .map(|p| {
            let (t, pr) =
                DLCards::compute_reveal_token(&parameters, &p.1, &p.0, &remasked, &random_scalar(rng))
                    .unwrap();
            (t, pr, p.0)
        })
        .collect();
    assert_eq!(Ok(card), DLCards::unmask(&parameters, &decryption_key, &remasked));
}

#[test]
fn unmask_with_too_few_tokens_gives_another_card() {
    let rng = &mut thread_rng();
    let parameters = setup(rng, 4, 13);
    let (players, shared_key) = setup_players(rng, &parameters, 3);
    let card = Plaintext(random_point(rng));
    let (masked, _) =
        DLCards::mask(&parameters, &shared_key, &card, &random_scalar(rng), &random_scalar(rng)).unwrap();
    let decryption_key: Vec<(Point, MaskingProof, Point)> = players[..2]
        .iter()
        .map(|p| {
            let (t, pr) =
                DLCards::compute_reveal_token(&parameters, &p.1, &p.0, &masked, &random_scalar(rng))
                    .unwrap();
            (t, pr, p.0)
        })
        .collect();
    assert_ne!(Ok(card), DLCards::unmask(&parameters, &decryption_key, &masked));
}

#[test]
fn six_players_deal_and_open_a_remasked_deck() {
    let rng = &mut thread_rng();
    let parameters = setup(rng, 4, 3);
    let names: Vec<&[u8]> = vec![b"Andrija", b"Kobi", b"Nico", b"Tom", b"Jay", b"Bob"];
    let players: Vec<(Point, Scalar)> = names
        .iter()
        .map(|_| DLCards::player_keygen(&parameters, &random_scalar(rng)).unwrap())
        .collect();
    let key_proofs: Vec<(Point, KeyProof, Vec<u8>)> = players
        .iter()
        .zip(names.iter())
        .map(|(p, name)| {
            let proof =
                DLCards::prove_key_ownership(&parameters, &p.0, &p.1, name, &random_scalar(rng)).unwrap();
            (p.0, proof, name.to_vec())
        })
        .collect();
    let shared_key = DLCards::compute_aggregate_key(&parameters, &key_proofs).unwrap();

    let deck: Vec<Plaintext> = (0..12).map(|_| Plaintext(random_point(rng))).collect();
    let mut masked: Vec<Ciphertext> = deck
        .iter()
        .map(|card| {
            let (m, proof) =
                DLCards::mask(&parameters, &shared_key, card, &random_scalar(rng), &random_scalar(rng)).unwrap();
            assert_eq!(Ok(()), DLCards::verify_mask(&parameters, &shared_key, card, &m, &proof));
            m
        })
        .collect();
    for _ in 0..players.len() {
        masked = masked
            .iter()
            .map(|c| {
                let (r, proof) =
                    DLCards::remask(&parameters, &shared_key, c, &random_scalar(rng), &random_scalar(rng)).unwrap();
                assert_eq!(Ok(()), DLCards::verify_remask(&parameters, &shared_key, c, &r, &proof));
                r
            })
            .collect();
    }

    let mut opened: Vec<Plaintext> = Vec::new();
    for hand in masked.chunks(2) {
        for card in hand {
            let tokens: Vec<(Point, MaskingProof, Point)> = players
                .iter()
                .map(|p| {
                    let (t, proof) =
                        DLCards::compute_reveal_token(&parameters, &p.1, &p.0, card, &random_scalar(rng)).unwrap();
                    (t, proof, p.0)
                })
                .collect();
            let open = DLCards::unmask(&parameters, &tokens, card).unwrap();
            assert!(deck.contains(&open));
            opened.push(open);
        }
    }
    assert_eq!(opened, deck);
}

#[test]
fn card_parameters_round_trip() {
    let rng = &mut thread_rng();
    let parameters = setup(rng, 4, 13);
    let bytes = parameters.to_bytes();
    assert_eq!(&bytes[..8], &[4u8, 0, 0, 0, 13, 0, 0, 0]);
    let back = Parameters::from_bytes(&bytes).unwrap();
    assert_eq!(back.m, 4);
    assert_eq!(back.n, 13);
    assert_eq!(back.enc_parameters, parameters.enc_parameters);
    assert_eq!(back.commit_parameters.g, parameters.commit_parameters.g);
    assert_eq!(back.commit_parameters.h, parameters.commit_parameters.h);
    assert!(Parameters::from_bytes(&bytes[..39]).is_err());
}
