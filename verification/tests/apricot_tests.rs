use magic_pake::ot::apricot::{
    check_consistency, check_count, check_messages, expand, honest_exchange, product_sum,
    row_key, seeds_of, selected_sum, Delivery, Receiver, Sender, COMP_SEC, EXTRA, STAT_SEC,
};
use magic_pake::ot::bitmatrix::{BitMatrix, BitVector};
use magic_pake::ot::chou_orlandi;
use magic_pake::ot::common::{
    validate_properties, Message, OTError, Payload, TransactionProperties,
};
use rand::{RngCore, SeedableRng};
use rand_chacha::ChaCha20Rng;
use sha2::{Digest, Sha256};

/// Runs the base transfers between the two parties of an extension: the
/// extension's sender receives, the extension's receiver sends.
fn bootstrap(sender: &Sender, receiver: &Receiver) -> Result<Payload, OTError> {
    let base_receiver = chou_orlandi::Receiver::new(&sender.choices());
    let base_sender = chou_orlandi::Sender::new(&receiver.seeds());
    let base_receiver = base_receiver.accept(&base_sender.public())?;
    let payload = base_sender.accept(&base_receiver.public())?;
    base_receiver.receive(&payload)
}

/// What honest base transfers give the sender: of each pair of seeds the
/// one that its secret selects.
fn selected_seeds(sender: &Sender, receiver: &Receiver) -> Payload {
    let seeds = receiver.seeds();
    sender
        .choices()
        .iter()
        .enumerate()
        .map(|(i, c)| seeds.0[i][*c as usize].clone())
        .collect()
}

/// Runs an extended transfer after honest base transfers.
fn extend(messages: &Message, choices: &[bool]) -> Result<Payload, OTError> {
    let sender = Sender::new(messages)?;
    let receiver = Receiver::new(choices)?;
    let seeds = selected_seeds(&sender, &receiver);
    let e = receiver.extend();
    let delivery = sender.exchange(&seeds, &e.u, &e.chi, &e.x_sum, &e.t_sum)?;
    receiver.receive(&delivery)
}

/// Runs a whole extended transfer, handing each frame over directly.
fn transfer(messages: &Message, choices: &[bool]) -> Result<Payload, OTError> {
    let sender = Sender::new(messages)?;
    let receiver = Receiver::new(choices)?;
    validate_properties(&sender.properties(), &receiver.properties())?;
    let seeds = bootstrap(&sender, &receiver)?;
    let e = receiver.extend();
    let delivery = sender.exchange(&seeds, &e.u, &e.chi, &e.x_sum, &e.t_sum)?;
    receiver.receive(&delivery)
}

fn messages_of(count: usize, len: usize) -> Message {
    let pairs = (0..count)
        .map(|i| {
            let m0: Vec<u8> = (0..len).map(|k| (i * 31 + k * 7) as u8).collect();
            let m1: Vec<u8> = (0..len).map(|k| (i * 17 + k * 3 + 101) as u8).collect();
            [m0, m1]
        })
        .collect();
    Message(pairs)
}

fn random_choices(count: usize) -> Vec<bool> {
    let mut rng = ChaCha20Rng::from_entropy();
    (0..count).map(|_| rng.next_u32() & 1 == 1).collect()
}

fn assert_chosen(payload: &Payload, messages: &Message, choices: &[bool]) {
    assert_eq!(payload.len(), choices.len());
    for (i, c) in choices.iter().enumerate() {
        assert_eq!(payload[i], messages.0[i][*c as usize], "transfer {}", i);
    }
}

fn flip(row: &BitVector, at: usize) -> BitVector {
    let bits: Vec<bool> = (0..row.len()).map(|i| row.index(i) != (i == at)).collect();
    BitVector::from_bits(&bits)
}

fn with_row(m: &BitMatrix, at: usize, row: BitVector) -> BitMatrix {
    let mut rows = m.clone().into_rows();
    rows[at] = row;
    BitMatrix::new(rows)
}

#[test]
fn parameters() {
    assert_eq!(COMP_SEC, 256);
    assert_eq!(STAT_SEC, 128);
    assert_eq!(EXTRA, COMP_SEC + STAT_SEC);
}

#[test]
fn extension_of_one_block() {
    let messages = messages_of(64, 8);
    let choices = random_choices(64);
    let payload = transfer(&messages, &choices).unwrap();
    assert_chosen(&payload, &messages, &choices);
}

#[test]
fn extension_with_all_choices_false() {
    let messages = messages_of(128, 16);
    let choices = vec![false; 128];
    let payload = extend(&messages, &choices).unwrap();
    assert_chosen(&payload, &messages, &choices);
}

#[test]
fn extension_with_all_choices_true() {
    let messages = messages_of(128, 16);
    let choices = vec![true; 128];
    let payload = extend(&messages, &choices).unwrap();
    assert_chosen(&payload, &messages, &choices);
}

#[test]
fn extension_over_many_words() {
    let messages = messages_of(1024, 64);
    let choices = random_choices(1024);
    let payload = extend(&messages, &choices).unwrap();
    assert_chosen(&payload, &messages, &choices);
}

#[test]
fn extension_with_the_wrong_seeds_does_not_deliver() {
    let messages = messages_of(64, 8);
    let choices = vec![true; 64];
    let sender = Sender::new(&messages).unwrap();
    let receiver = Receiver::new(&choices).unwrap();
    // the sender holds, of each pair of seeds, the one that its secret does not select
    let seeds = receiver.seeds();
    let wrong: Payload = sender
        .choices()
        .iter()
        .enumerate()
        .map(|(i, c)| seeds.0[i][!*c as usize].clone())
        .collect();
    let e = receiver.extend();
    assert!(matches!(
        sender.exchange(&wrong, &e.u, &e.chi, &e.x_sum, &e.t_sum),
        Err(OTError::CheatDetected)
    ));
}

#[test]
fn extension_of_4096_transfers() {
    let messages = messages_of(4096, 32);
    let choices = random_choices(4096);
    let payload = transfer(&messages, &choices).unwrap();
    assert_chosen(&payload, &messages, &choices);
}

#[test]
fn short_messages_are_rejected() {
    let messages = messages_of(64, 4);
    assert!(!check_messages(&messages));
    assert!(matches!(
        Sender::new(&messages),
        Err(OTError::PreconditionViolation)
    ));
    assert!(matches!(
        Sender::with_delta(&messages, [0u8; 32]),
        Err(OTError::PreconditionViolation)
    ));
}

#[test]
fn messages_must_fill_blocks_and_agree_in_length() {
    assert!(check_messages(&messages_of(64, 8)));
    assert!(check_messages(&messages_of(128, 24)));
    assert!(!check_messages(&messages_of(64, 12)));
    assert!(!check_messages(&messages_of(64, 0)));
    assert!(!check_messages(&messages_of(0, 8)));
    assert!(!check_messages(&messages_of(32, 8)));
    assert!(!check_messages(&messages_of(65, 8)));
    let mut uneven = messages_of(64, 8);
    uneven.0[63][1] = vec![0u8; 16];
    assert!(!check_messages(&uneven));
    assert!(matches!(
        Sender::new(&uneven),
        Err(OTError::PreconditionViolation)
    ));
}

#[test]
fn counts_must_fill_blocks() {
    assert!(check_count(64));
    assert!(check_count(4096));
    assert!(!check_count(0));
    assert!(!check_count(4));
    assert!(!check_count(63));
    assert!(!check_count(100));
    assert!(!check_count(usize::MAX - 63));
    assert!(matches!(
        Receiver::new(&[true; 4]),
        Err(OTError::PreconditionViolation)
    ));
    assert!(matches!(
        Receiver::new(&[true; 100]),
        Err(OTError::PreconditionViolation)
    ));
    assert!(Receiver::new(&[true; 64]).is_ok());
}

#[test]
fn parties_must_agree_on_the_number_of_transfers() {
    let sender = Sender::new(&messages_of(64, 8)).unwrap();
    let receiver = Receiver::new(&[false; 128]).unwrap();
    assert_eq!(sender.properties(), TransactionProperties { msg_size: 64 });
    assert_eq!(receiver.properties(), TransactionProperties { msg_size: 128 });
    assert_eq!(
        validate_properties(&sender.properties(), &receiver.properties()),
        Err(OTError::TransactionMismatch)
    );
    assert_eq!(
        validate_properties(&sender.properties(), &sender.properties()),
        Ok(())
    );
}

#[test]
fn inconsistent_rows_are_detected() {
    let messages = messages_of(64, 8);
    let choices = random_choices(64);
    let sender = Sender::with_delta(&messages, [0xffu8; 32]).unwrap();
    let receiver = Receiver::new(&choices).unwrap();
    let seeds = selected_seeds(&sender, &receiver);
    let e = receiver.extend();

    // one bit of one row of the masked matrix disagrees with the others
    let u = with_row(&e.u, 17, flip(e.u.index(17), 5));
    assert!(matches!(
        sender.exchange(&seeds, &u, &e.chi, &e.x_sum, &e.t_sum),
        Err(OTError::CheatDetected)
    ));
    // a sum that does not belong to the rows
    assert!(matches!(
        sender.exchange(&seeds, &e.u, &e.chi, &e.x_sum, &flip(&e.t_sum, 0)),
        Err(OTError::CheatDetected)
    ));
    assert!(matches!(
        sender.exchange(&seeds, &e.u, &e.chi, &flip(&e.x_sum, 255), &e.t_sum),
        Err(OTError::CheatDetected)
    ));
    // the honest frames pass
    let delivery = sender
        .exchange(&seeds, &e.u, &e.chi, &e.x_sum, &e.t_sum)
        .unwrap();
    assert_chosen(&receiver.receive(&delivery).unwrap(), &messages, &choices);
}

#[test]
fn frames_of_the_wrong_size_are_rejected() {
    let messages = messages_of(64, 8);
    let sender = Sender::new(&messages).unwrap();
    let receiver = Receiver::new(&[false; 64]).unwrap();
    let seeds = selected_seeds(&sender, &receiver);
    let e = receiver.extend();

    let mut short = seeds.clone();
    short.pop();
    assert!(matches!(
        sender.exchange(&short, &e.u, &e.chi, &e.x_sum, &e.t_sum),
        Err(OTError::TransportFailure)
    ));
    let mut cut = seeds.clone();
    cut[3].pop();
    assert!(matches!(
        sender.exchange(&cut, &e.u, &e.chi, &e.x_sum, &e.t_sum),
        Err(OTError::TransportFailure)
    ));
    assert!(matches!(
        sender.exchange(&seeds, &e.chi, &e.chi, &e.x_sum, &e.t_sum),
        Err(OTError::TransportFailure)
    ));
    assert!(matches!(
        sender.exchange(&seeds, &e.u, &e.u, &e.x_sum, &e.t_sum),
        Err(OTError::TransportFailure)
    ));
    assert!(matches!(
        sender.exchange(&seeds, &e.u, &e.chi, &BitVector::zeros(64), &e.t_sum),
        Err(OTError::TransportFailure)
    ));
    assert!(matches!(
        sender.exchange(&seeds, &e.u, &e.chi, &e.x_sum, &BitVector::zeros(512)),
        Err(OTError::TransportFailure)
    ));
}

#[test]
fn receiver_fails_on_forged_or_missing_ciphertexts() {
    let messages = messages_of(64, 8);
    let choices: Vec<bool> = (0..64).map(|i| i % 2 == 0).collect();
    let sender = Sender::new(&messages).unwrap();
    let receiver = Receiver::new(&choices).unwrap();
    let seeds = selected_seeds(&sender, &receiver);
    let e = receiver.extend();
    let delivery = sender
        .exchange(&seeds, &e.u, &e.chi, &e.x_sum, &e.t_sum)
        .unwrap();

    let mut d0 = delivery.d0.clone();
    d0[1][0] ^= 1;
    let forged = Delivery { d0, d1: delivery.d1.clone() };
    assert_eq!(receiver.receive(&forged), Err(OTError::DecodeFailure));
    let mut d1 = delivery.d1.clone();
    d1.pop();
    let short = Delivery { d0: delivery.d0.clone(), d1 };
    assert_eq!(receiver.receive(&short), Err(OTError::TransportFailure));
    // the ciphertexts of the messages not chosen do not open
    let swapped = Delivery { d0: delivery.d1.clone(), d1: delivery.d0.clone() };
    assert_eq!(receiver.receive(&swapped), Err(OTError::DecodeFailure));
    assert_chosen(&receiver.receive(&delivery).unwrap(), &messages, &choices);
}

#[test]
fn sender_choices_are_the_bits_of_its_secret() {
    let mut delta = [0u8; 32];
    delta[0] = 0b0000_0110;
    delta[31] = 0x80;
    let sender = Sender::with_delta(&messages_of(64, 8), delta).unwrap();
    let choices = sender.choices();
    assert_eq!(choices.len(), 256);
    for (i, c) in choices.iter().enumerate() {
        assert_eq!(*c, i == 1 || i == 2 || i == 255, "bit {}", i);
    }
}

#[test]
fn receiver_seeds_are_its_base_messages() {
    let seed0: Vec<[u8; 32]> = (0..256).map(|i| [i as u8; 32]).collect();
    let seed1: Vec<[u8; 32]> = (0..256).map(|i| [(255 - i) as u8; 32]).collect();
    let chi = BitMatrix::new((0..64 + 384).map(|_| BitVector::zeros(256)).collect());
    let receiver =
        Receiver::with_randomness(&[true; 64], vec![false; 384], seed0, seed1, chi).unwrap();
    let seeds = receiver.seeds();
    assert_eq!(seeds.len(), 256);
    assert_eq!(seeds.0[5][0], vec![5u8; 32]);
    assert_eq!(seeds.0[5][1], vec![250u8; 32]);
    // with challenges that are all zero both sums are zero
    let e = receiver.extend();
    assert!(e.x_sum == BitVector::zeros(256));
    assert!(e.t_sum == BitVector::zeros(256));
    assert!(e.u.is_shaped(256, 448));
    assert!(e.chi.is_shaped(448, 256));
}

#[test]
fn expansion_is_the_generator_s_stream() {
    let seed = [7u8; 32];
    let rows = expand(&vec![seed, [8u8; 32]], 128);
    assert!(rows.is_shaped(2, 128));
    let mut expected = vec![0u8; 16];
    ChaCha20Rng::from_seed(seed).fill_bytes(&mut expected);
    assert_eq!(rows.index(0).as_bytes(), expected);
    assert!(expected != vec![7u8; 16]);
    assert!(rows.index(0) != rows.index(1));
    // the stream of the zero seed starts with the cipher's first block
    let zero = expand(&vec![[0u8; 32]], 64);
    assert_eq!(
        zero.index(0).as_bytes(),
        vec![0x76, 0xb8, 0xe0, 0xad, 0xa0, 0xf1, 0x3d, 0x90]
    );
}

#[test]
fn row_key_hashes_index_and_row() {
    let row = BitVector::from_bytes(vec![1, 2, 3, 4, 5, 6, 7, 8]);
    let mut hasher = Sha256::new();
    hasher.update([0u8, 0, 0, 0, 0, 0, 1, 2]);
    hasher.update([1u8, 2, 3, 4, 5, 6, 7, 8]);
    let expected: [u8; 32] = hasher.finalize().into();
    assert_eq!(row_key(258, &row), expected);
    assert!(row_key(259, &row) != expected);
}

#[test]
fn seeds_must_be_256_of_32_bytes() {
    let good: Payload = (0..256).map(|i| vec![i as u8; 32]).collect();
    let seeds = seeds_of(&good).unwrap();
    assert_eq!(seeds.len(), 256);
    assert_eq!(seeds[9], [9u8; 32]);
    let mut bad = good.clone();
    bad[255] = vec![0u8; 31];
    assert!(seeds_of(&bad).is_none());
    bad.pop();
    assert!(seeds_of(&bad).is_none());
    assert!(seeds_of(&Vec::new()).is_none());
}

#[test]
fn sums_of_the_check() {
    let one = {
        let mut w = vec![0u64; 4];
        w[0] = 1;
        BitVector::from_vec(w)
    };
    let x = {
        let mut w = vec![0u64; 4];
        w[0] = 0b10;
        BitVector::from_vec(w)
    };
    let x_plus_one = {
        let mut w = vec![0u64; 4];
        w[0] = 0b11;
        BitVector::from_vec(w)
    };
    let x_squared = {
        let mut w = vec![0u64; 4];
        w[0] = 0b100;
        BitVector::from_vec(w)
    };
    let zero = BitVector::zeros(256);
    let rows = BitMatrix::new(vec![x.clone(), x_plus_one.clone(), one.clone()]);
    let chi = BitMatrix::new(vec![x.clone(), one.clone(), one.clone()]);
    // x * x + (x + 1) * 1 + 1 * 1 = x^2 + x
    let expected = {
        let mut w = vec![0u64; 4];
        w[0] = 0b110;
        BitVector::from_vec(w)
    };
    assert!(product_sum(&rows, &chi) == expected);
    // rows 0 and 2: x + 1
    assert!(selected_sum(&rows, &[true, false, true]) == x_plus_one);
    assert!(selected_sum(&rows, &[false, false, false]) == zero);

    // t_sum == x_sum * delta + q_sum, with q = [x], chi = [x], delta = x + 1, x_sum = 1
    let q = BitMatrix::new(vec![x.clone()]);
    let c = BitMatrix::new(vec![x.clone()]);
    let t_sum = {
        let mut w = vec![0u64; 4];
        w[0] = 0b111;
        BitVector::from_vec(w)
    };
    assert_eq!(check_consistency(&q, &c, &x_plus_one, &one, &t_sum), Ok(()));
    assert_eq!(
        check_consistency(&q, &c, &x_plus_one, &one, &x_squared),
        Err(OTError::CheatDetected)
    );
}

/// Randomness for a receiver of `count` choices and a sender, all drawn
/// from one seeded generator.
fn drawn(count: usize, seed: u64) -> ([u8; 32], Vec<bool>, Vec<[u8; 32]>, Vec<[u8; 32]>, BitMatrix) {
    let mut rng = ChaCha20Rng::seed_from_u64(seed);
    let mut delta = [0u8; 32];
    rng.fill_bytes(&mut delta);
    let bonus: Vec<bool> = (0..384).map(|_| rng.next_u32() & 1 == 1).collect();
    let mut seeds = |rng: &mut ChaCha20Rng| -> Vec<[u8; 32]> {
        (0..256)
            .map(|_| {
                let mut s = [0u8; 32];
                rng.fill_bytes(&mut s);
                s
            })
            .collect()
    };
    let seed0 = seeds(&mut rng);
    let seed1 = seeds(&mut rng);
    let chi = BitMatrix::new(
        (0..count + 384)
            .map(|_| BitVector::from_vec((0..4).map(|_| rng.next_u64()).collect()))
            .collect(),
    );
    (delta, bonus, seed0, seed1, chi)
}

#[test]
fn honest_parties_always_succeed() {
    for (round, count) in [64usize, 192, 64, 128].into_iter().enumerate() {
        let messages = messages_of(count, 16);
        let mut rng = ChaCha20Rng::seed_from_u64(1000 + round as u64);
        let choices: Vec<bool> = (0..count).map(|_| rng.next_u32() & 1 == 1).collect();
        let (delta, bonus, seed0, seed1, chi) = drawn(count, round as u64);
        let payload =
            honest_exchange(&messages, &choices, delta, bonus, seed0, seed1, chi).unwrap();
        assert_chosen(&payload, &messages, &choices);
    }
}

#[test]
fn honest_parties_with_extreme_secrets() {
    let messages = messages_of(64, 8);
    let choices: Vec<bool> = (0..64).map(|i| i % 5 == 0).collect();
    for delta in [[0u8; 32], [0xffu8; 32]] {
        let (_, bonus, seed0, seed1, chi) = drawn(64, 7);
        let payload =
            honest_exchange(&messages, &choices, delta, bonus, seed0, seed1, chi).unwrap();
        assert_chosen(&payload, &messages, &choices);
    }
    // equal seeds in every pair, and challenges that are all zero
    let chi = BitMatrix::new((0..448).map(|_| BitVector::zeros(256)).collect());
    let payload = honest_exchange(
        &messages,
        &choices,
        [0x5au8; 32],
        vec![true; 384],
        vec![[9u8; 32]; 256],
        vec![[9u8; 32]; 256],
        chi,
    )
    .unwrap();
    assert_chosen(&payload, &messages, &choices);
}

#[test]
fn honest_exchange_rejects_what_the_parties_would() {
    let (delta, bonus, seed0, seed1, chi) = drawn(64, 3);
    assert_eq!(
        honest_exchange(
            &messages_of(64, 4),
            &[false; 64],
            delta,
            bonus.clone(),
            seed0.clone(),
            seed1.clone(),
            chi.clone()
        ),
        Err(OTError::PreconditionViolation)
    );
    assert_eq!(
        honest_exchange(
            &messages_of(128, 8),
            &[false; 64],
            delta,
            bonus,
            seed0,
            seed1,
            chi
        ),
        Err(OTError::TransactionMismatch)
    );
    let (delta, bonus, seed0, seed1, _) = drawn(64, 3);
    let chi = BitMatrix::new((0..4 + 384).map(|_| BitVector::zeros(256)).collect());
    assert_eq!(
        honest_exchange(&messages_of(64, 8), &[false; 4], delta, bonus, seed0, seed1, chi),
        Err(OTError::PreconditionViolation)
    );
}
