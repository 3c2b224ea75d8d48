use aes_gcm::aead::{Aead, NewAead};
use aes_gcm::{Aes256Gcm, Key, Nonce};
use curve25519_dalek::constants::ED25519_BASEPOINT_TABLE;
use curve25519_dalek::edwards::{CompressedEdwardsY, EdwardsPoint};
use curve25519_dalek::scalar::Scalar;
use magic_pake::ot::chou_orlandi::{fits_cipher, EncryptedPayload, Public, Receiver, Sender};
use magic_pake::ot::common::{open, Message, OTError};
use rand::SeedableRng;
use rand_chacha::ChaCha12Rng;
use sha2::{Digest, Sha256};

/// A string of 32 bytes that is no point of the curve.
fn invalid_point() -> [u8; 32] {
    for y in 0..=255u8 {
        let mut bytes = [0u8; 32];
        bytes[0] = y;
        if CompressedEdwardsY(bytes).decompress().is_none() {
            return bytes;
        }
    }
    panic!("every small number is the coordinate of a point");
}

#[test]
fn test_ot_protocol_zero() {
    let m0 = b"Hello, world!".to_vec();
    let m1 = b"Hello, sweden!".to_vec();

    // round 0
    let receiver = Receiver::new(&[false]);
    let sender = Sender::new(&Message(vec![[m0.clone(), m1]]));

    // round 1
    let receiver = receiver.accept(&sender.public()).unwrap();

    // round 2
    let payload = sender.accept(&receiver.public()).unwrap();

    let msg = receiver.receive(&payload).unwrap();

    assert!(msg[0] == m0);
}

#[test]
fn test_ot_protocol_one() {
    let m0 = b"Hello, world!".to_vec();
    let m1 = b"Hello, sweden!".to_vec();

    // round 0
    let receiver = Receiver::new(&[true]);
    let sender = Sender::new(&Message(vec![[m0, m1.clone()]]));

    // round 1
    let receiver = receiver.accept(&sender.public()).unwrap();

    // round 2
    let payload = sender.accept(&receiver.public()).unwrap();

    let msg = receiver.receive(&payload).unwrap();

    assert!(msg[0] == m1);
}

#[test]
fn test_n_ots() {
    let m: [[[u8; 1]; 2]; 5] = [
        [[1], [6]],
        [[2], [7]],
        [[3], [8]],
        [[4], [9]],
        [[5], [10]],
    ];

    let msg = Message::new2(&m);

    let c = [true, false, true, false, true];
    let receiver = Receiver::new(&c);
    let sender = Sender::new(&msg);

    // round 1
    let receiver = receiver.accept(&sender.public()).unwrap();

    // round 2
    let payload = sender.accept(&receiver.public()).unwrap();

    let msg = receiver.receive(&payload).unwrap();
    for m in &msg {
        println!("{:?}", m);
    }
    for (i, &b) in c.iter().enumerate() {
        assert!(
            msg[i] == m[i][b as usize],
            "b={} has {:?} =! {:?} at i={}",
            b,
            msg[i],
            m[i][b as usize],
            i
        );
    }
}

#[allow(non_snake_case)]
#[test]
fn oblivious_transfer() {
    let mut rng = ChaCha12Rng::from_entropy();
    let m0 = vec![0; 8];
    let m1 = vec![1; 8];
    let c = 0; // Choice

    let g = ED25519_BASEPOINT_TABLE;
    let a = Scalar::random(&mut rng);
    let b = Scalar::random(&mut rng);
    let A = g * &a;
    let B = if c == 0 { g * &b } else { A + (g * &b) }; // send B back to sender.
    let mut hasher = Sha256::new();
    hasher.update((B * a).to_montgomery().as_bytes());
    let k0 = hasher.finalize();
    let mut hasher = Sha256::new();
    hasher.update(((B - A) * a).to_montgomery().as_bytes());
    let k1 = hasher.finalize();

    let cipher = Aes256Gcm::new(Key::from_slice(&k0));
    let nonce = Nonce::from_slice(b"unique nonce");
    let e0 = cipher.encrypt(nonce, m0.as_slice()).unwrap();
    let cipher = Aes256Gcm::new(Key::from_slice(&k1));
    let nonce = Nonce::from_slice(b"unique nonce");
    let e1 = cipher.encrypt(nonce, m1.as_slice()).unwrap();

    // send the e0, e1 to receiver.
    let mut hasher = Sha256::new();
    hasher.update((A * b).to_montgomery().as_bytes());
    let kR = hasher.finalize();

    let key = Key::from_slice(&kR);
    let cipher = Aes256Gcm::new(key);
    let nonce = Nonce::from_slice(b"unique nonce");
    let m_c = if c == 0 {
        cipher.decrypt(nonce, e0.as_ref()).unwrap()
    } else {
        cipher.decrypt(nonce, e1.as_ref()).unwrap()
    };
    assert_eq!(m_c, m0);
}

#[allow(non_snake_case)]
#[test]
fn diffie_hellman() {
    let mut rng = ChaCha12Rng::from_entropy();
    let g = ED25519_BASEPOINT_TABLE;
    let a = Scalar::random(&mut rng);
    let b = Scalar::random(&mut rng);
    let g_a = (g * &a).to_montgomery();
    let g_b = (g * &b).to_montgomery();
    let g_ab = g_a * b;
    let g_ba = g_b * a;
    let mut hasher = Sha256::new();
    hasher.update(g_ab.as_bytes());
    let k_A = hasher.finalize();
    let mut hasher = Sha256::new();
    hasher.update(g_ba.as_bytes());
    let k_B = hasher.finalize();

    // key encryption test.
    let key = Key::from_slice(&k_A);
    let cipher = Aes256Gcm::new(key);
    let nonce = Nonce::from_slice(b"unique nonce");
    let ciphertext = cipher.encrypt(nonce, b"Hello!".as_ref()).unwrap();

    // key decryption test.
    let key = Key::from_slice(&k_B);
    let cipher = Aes256Gcm::new(key);
    let nonce = Nonce::from_slice(b"unique nonce");
    let plaintext = cipher.decrypt(nonce, ciphertext.as_ref()).unwrap();
    let plaintext = std::str::from_utf8(&plaintext).unwrap();
    assert_eq!(plaintext, "Hello!");
}

#[test]
fn publics_are_the_base_point_times_the_secrets() {
    let mut secret = [0u8; 32];
    secret[0] = 7;
    let msg = Message(vec![[vec![1, 2, 3], vec![4, 5, 6]]]);
    let sender = Sender::with_secrets(&msg, vec![secret]);
    let expected = EdwardsPoint::mul_base(&Scalar::from(7u64)).compress().to_bytes();
    assert_eq!(sender.public().0, vec![expected]);
    assert!(expected != secret);

    let receiver = Receiver::with_secrets(&[false, true], vec![secret, secret]);
    let receiver = receiver.accept(&Public(vec![expected, expected])).unwrap();
    let doubled = (EdwardsPoint::mul_base(&Scalar::from(7u64))
        + EdwardsPoint::mul_base(&Scalar::from(7u64)))
    .compress()
    .to_bytes();
    assert_eq!(receiver.public().0, vec![expected, doubled]);
}

#[test]
fn transfer_with_given_secrets_uses_the_derived_key() {
    let mut a = [0u8; 32];
    a[0] = 3;
    let mut b = [0u8; 32];
    b[0] = 5;
    let msg = Message(vec![[b"first".to_vec(), b"second".to_vec()]]);
    let sender = Sender::with_secrets(&msg, vec![a]);
    let receiver = Receiver::with_secrets(&[true], vec![b]);
    let receiver = receiver.accept(&sender.public()).unwrap();
    let payload = sender.accept(&receiver.public()).unwrap();

    // the key of the second message is the hash of (a b) G
    let shared = EdwardsPoint::mul_base(&Scalar::from(15u64)).compress();
    let key = Sha256::digest(shared.as_bytes());
    let cipher = Aes256Gcm::new(Key::from_slice(&key));
    let nonce = Nonce::from_slice(b"unique nonce");
    assert_eq!(
        cipher.decrypt(nonce, payload.0[0][1].as_slice()).unwrap(),
        b"second".to_vec()
    );
    assert_eq!(
        payload.0[0][1],
        cipher.encrypt(nonce, b"second".as_ref()).unwrap()
    );
    assert!(cipher.decrypt(nonce, payload.0[0][0].as_slice()).is_err());
    assert_eq!(receiver.receive(&payload).unwrap(), vec![b"second".to_vec()]);
}

#[test]
fn receiver_does_not_get_the_other_message() {
    let m0 = vec![0x11u8; 16];
    let m1 = vec![0x22u8; 16];
    for choice in [false, true] {
        let receiver = Receiver::new(&[choice]);
        let sender = Sender::new(&Message(vec![[m0.clone(), m1.clone()]]));
        let receiver = receiver.accept(&sender.public()).unwrap();
        let payload = sender.accept(&receiver.public()).unwrap();
        // swapping the ciphertexts makes the receiver try its key on the other one
        let swapped = EncryptedPayload(vec![[payload.0[0][1].clone(), payload.0[0][0].clone()]]);
        assert_eq!(receiver.receive(&swapped), Err(OTError::DecodeFailure));
        let msg = receiver.receive(&payload).unwrap();
        assert_eq!(msg[0], if choice { m1.clone() } else { m0.clone() });
    }
}

#[test]
fn empty_transfer() {
    let receiver = Receiver::new(&[]);
    let sender = Sender::new(&Message(vec![]));
    let receiver = receiver.accept(&sender.public()).unwrap();
    let payload = sender.accept(&receiver.public()).unwrap();
    assert_eq!(receiver.receive(&payload).unwrap(), Vec::<Vec<u8>>::new());
}

#[test]
fn sender_rejects_what_is_no_point_or_too_few() {
    let msg = Message(vec![[vec![1], vec![2]], [vec![3], vec![4]]]);
    let sender = Sender::new(&msg);
    let publics = sender.public();
    assert!(matches!(
        sender.accept(&Public(vec![publics.0[0]])),
        Err(OTError::TransportFailure)
    ));
    assert!(matches!(
        sender.accept(&Public(vec![publics.0[0], invalid_point()])),
        Err(OTError::TransportFailure)
    ));
    assert!(sender.accept(&publics).is_ok());
}

#[test]
fn receiver_rejects_what_is_no_point_or_too_many() {
    let msg = Message(vec![[vec![1], vec![2]]]);
    let sender = Sender::new(&msg);
    let publics = sender.public();
    for choice in [false, true] {
        let receiver = Receiver::new(&[choice]);
        assert!(matches!(
            receiver.accept(&Public(vec![publics.0[0], publics.0[0]])),
            Err(OTError::TransportFailure)
        ));
        assert!(matches!(
            receiver.accept(&Public(vec![invalid_point()])),
            Err(OTError::TransportFailure)
        ));
        assert!(receiver.accept(&publics).is_ok());
    }
}

#[test]
fn receive_fails_on_a_forged_or_missing_ciphertext() {
    let msg = Message(vec![[vec![1, 2], vec![3, 4]]]);
    let sender = Sender::new(&msg);
    let receiver = Receiver::new(&[false]).accept(&sender.public()).unwrap();
    let payload = sender.accept(&receiver.public()).unwrap();
    let mut forged = payload.0[0][0].clone();
    forged[0] ^= 1;
    let forged = EncryptedPayload(vec![[forged, payload.0[0][1].clone()]]);
    assert_eq!(receiver.receive(&forged), Err(OTError::DecodeFailure));
    assert_eq!(
        receiver.receive(&EncryptedPayload(vec![])),
        Err(OTError::TransportFailure)
    );
    assert_eq!(receiver.receive(&payload), Ok(vec![vec![1, 2]]));
}

#[test]
fn publics_as_frames() {
    let publics = Public(vec![[1u8; 32], [2u8; 32]]);
    let frames = publics.to_frames();
    assert_eq!(frames, vec![vec![1u8; 32], vec![2u8; 32]]);
    assert_eq!(Public::from_frames(&frames).unwrap().0, publics.0);
    assert_eq!(Public::from_frames(&vec![]).unwrap().0.len(), 0);
    assert!(matches!(
        Public::from_frames(&vec![vec![1u8; 32], vec![2u8; 31]]),
        Err(OTError::TransportFailure)
    ));
    assert!(matches!(
        Public::from_frames(&vec![vec![0u8; 33]]),
        Err(OTError::TransportFailure)
    ));
}

#[test]
fn test_channel_version() {
    let (s1, r1) = std::sync::mpsc::channel::<Vec<u8>>();
    let (s2, r2) = std::sync::mpsc::channel::<Vec<u8>>();
    let ch1 = (s1, r2);
    let ch2 = (s2, r1);

    let msg = Message::new(&[b"Hello".to_vec()], &[b"World".to_vec()]);
    let choices = [true];

    // round 1: the sender's elements go over the channel
    let sender = Sender::new(&msg);
    for frame in sender.public().to_frames() {
        ch1.0.send(frame).unwrap();
    }
    let receiver = Receiver::new(&choices);
    let frames: Vec<Vec<u8>> = (0..choices.len()).map(|_| ch2.1.recv().unwrap()).collect();
    let receiver = receiver
        .accept(&Public::from_frames(&frames).unwrap())
        .unwrap();

    // round 2: the receiver's elements go back
    for frame in receiver.public().to_frames() {
        ch2.0.send(frame).unwrap();
    }
    let frames: Vec<Vec<u8>> = (0..msg.len()).map(|_| ch1.1.recv().unwrap()).collect();
    let payload = sender
        .accept(&Public::from_frames(&frames).unwrap())
        .unwrap();

    // round 3: the ciphertexts go over in one frame
    ch1.0.send(bincode::serialize(&payload.0).unwrap()).unwrap();
    let pairs: Vec<[Vec<u8>; 2]> = bincode::deserialize(&ch2.1.recv().unwrap()).unwrap();
    let msg = receiver.receive(&EncryptedPayload(pairs)).unwrap();
    assert_eq!(msg[0], b"World");
}

#[test]
fn ordinary_messages_fit_the_cipher() {
    assert!(fits_cipher(&Message(vec![])));
    assert!(fits_cipher(&Message(vec![
        [vec![], vec![0u8; 1]],
        [vec![7u8; 100_000], b"Hello, world!".to_vec()]
    ])));
}

#[test]
fn ciphertexts_are_sixteen_bytes_longer() {
    let msg = Message(vec![[vec![], vec![7u8; 100]], [vec![1u8; 33], vec![2u8; 1]]]);
    let sender = Sender::new(&msg);
    let receiver = Receiver::new(&[true, false])
        .accept(&sender.public())
        .unwrap();
    let payload = sender.accept(&receiver.public()).unwrap();
    for (pair, sealed) in msg.0.iter().zip(payload.0.iter()) {
        assert_eq!(sealed[0].len(), pair[0].len() + 16);
        assert_eq!(sealed[1].len(), pair[1].len() + 16);
    }
    assert_eq!(
        receiver.receive(&payload).unwrap(),
        vec![vec![7u8; 100], vec![1u8; 33]]
    );
}

#[test]
fn open_undoes_the_cipher() {
    let key = [0x42u8; 32];
    let cipher = Aes256Gcm::new(Key::from_slice(&key));
    let nonce = Nonce::from_slice(b"unique nonce");
    let sealed = cipher.encrypt(nonce, b"sixteen and more bytes".as_ref()).unwrap();
    assert_eq!(open(&key, &sealed), Some(b"sixteen and more bytes".to_vec()));
    assert_eq!(open(&[0x43u8; 32], &sealed), None);
    let mut forged = sealed.clone();
    forged[3] ^= 0x10;
    assert_eq!(open(&key, &forged), None);
    // shorter than a tag
    assert_eq!(open(&key, &sealed[..15]), None);
    assert_eq!(open(&key, &[]), None);
    let empty = cipher.encrypt(nonce, b"".as_ref()).unwrap();
    assert_eq!(empty.len(), 16);
    assert_eq!(open(&key, &empty), Some(vec![]));
}
