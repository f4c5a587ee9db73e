use pillar_core::encryption::{generate_public_private_keypair, EncryptionError, PillarSharedSecret, SecretState};

#[test]
fn test_keypair_generation() {
    let keypair = generate_public_private_keypair();
    assert_eq!(keypair.public_key.len(), 32);
}

#[test]
fn test_shared_secret_encryption_decryption() {
    // Simulate Alice initiating and Bob joining
    let mut alice = PillarSharedSecret::initiate();
    let bob = PillarSharedSecret::join(alice.public.clone()).unwrap();

    // Alice hydrates his cipher with bob's public key
    alice.hydrate(bob.public.clone()).unwrap();

    assert!(matches!(alice.state, SecretState::Joined(_)));
    assert!(matches!(bob.state, SecretState::Joined(_)));

    let message = b"Hello Pillar!";
    let ciphertext = alice.encrypt(message).unwrap();
    println!("Ciphertext: {:?}", ciphertext);
    let decrypted = bob.decrypt(&ciphertext).unwrap();

    assert_eq!(decrypted, message);
}

#[test]
fn test_encrypt_without_cipher() {
    let secret = PillarSharedSecret::initiate();
    let result = secret.encrypt(b"test");
    assert!(result.is_err());
}

#[test]
fn test_decrypt_without_cipher() {
    let secret = PillarSharedSecret::initiate();
    let result = secret.decrypt(b"test");
    assert!(result.is_err());
}

#[test]
fn test_decrypt_invalid_ciphertext() {
    let mut secret = PillarSharedSecret::initiate();
    let keypair = generate_public_private_keypair();
    let remote_key = keypair.public_key;
    secret.hydrate(remote_key).unwrap();

    let bad_ciphertext = vec![0u8; 10]; // too short
    let result = secret.decrypt(&bad_ciphertext);
    assert!(result.is_err());
}

#[test]
fn test_hydrate_without_private_key() {
    let mut secret = PillarSharedSecret { public: [0u8; 32], state: SecretState::Empty };
    let result = secret.hydrate([1u8; 32]);
    assert!(result.is_err());
}

#[test]
fn test_multiple_hydrate_calls() {
    let mut alice = PillarSharedSecret::initiate();
    let bob = PillarSharedSecret::join(alice.public.clone()).unwrap();

    // First hydrate should work
    assert!(alice.hydrate(bob.public.clone()).is_ok());

    // Second hydrate should fail since private key is consumed
    assert!(alice.hydrate(bob.public.clone()).is_err());
}

#[test]
fn test_long_message_encryption_decryption() {
    let mut alice = PillarSharedSecret::initiate();
    let bob = PillarSharedSecret::join(alice.public.clone()).unwrap();
    alice.hydrate(bob.public.clone()).unwrap();

    let long_message = vec![0u8; 10_000]; // 10 KB of zeros
    let ciphertext = alice.encrypt(&long_message).unwrap();
    let decrypted = bob.decrypt(&ciphertext).unwrap();

    assert_eq!(decrypted, long_message);
}

#[test]
fn test_multiple_use_of_cipher() {
    let mut alice = PillarSharedSecret::initiate();
    let bob = PillarSharedSecret::join(alice.public.clone()).unwrap();
    alice.hydrate(bob.public.clone()).unwrap();

    let message1 = b"First message";
    let ciphertext1 = alice.encrypt(message1).unwrap();
    let decrypted1 = bob.decrypt(&ciphertext1).unwrap();
    assert_eq!(decrypted1, message1);

    let message2 = b"Second message";
    let ciphertext2 = alice.encrypt(message2).unwrap();
    let decrypted2 = bob.decrypt(&ciphertext2).unwrap();
    assert_eq!(decrypted2, message2);
}

#[test]
fn encryption_errors_name_their_cause() {
    let secret = PillarSharedSecret::initiate();
    assert_eq!(secret.encrypt(b"x").unwrap_err(), EncryptionError::CipherNotEstablished);
    assert!(!secret.is_joined());
    let mut alice = PillarSharedSecret::initiate();
    let bob = PillarSharedSecret::join(alice.public).unwrap();
    assert!(bob.is_joined());
    assert_eq!(bob.decrypt(&[1, 2, 3]).unwrap_err(), EncryptionError::CiphertextTooShort);
    alice.hydrate(bob.public).unwrap();
    let mut ciphertext = alice.encrypt(b"payload").unwrap();
    assert_eq!(ciphertext.len(), 12 + 7 + 16);
    assert_eq!(alice.decrypt(&ciphertext).unwrap(), b"payload");
    ciphertext[20] ^= 1;
    assert_eq!(bob.decrypt(&ciphertext).unwrap_err(), EncryptionError::CipherFailure);
    let mut again = PillarSharedSecret::join(alice.public).unwrap();
    assert_eq!(again.hydrate(alice.public).unwrap_err(), EncryptionError::AlreadyEstablished);
    assert!(matches!(again.state, SecretState::Empty));
}

#[test]
fn both_sides_derive_the_same_channel_key() {
    let mut alice = PillarSharedSecret::initiate();
    let bob = PillarSharedSecret::join(alice.public).unwrap();
    alice.hydrate(bob.public).unwrap();
    match (&alice.state, &bob.state) {
        (SecretState::Joined(a), SecretState::Joined(b)) => assert_eq!(a, b),
        _ => panic!("both sides should be joined"),
    }
    let other = PillarSharedSecret::join(alice.public).unwrap();
    assert_ne!(other.public, bob.public);
}

#[test]
fn key_pair_public_key_is_the_x25519_of_the_basepoint() {
    let keypair = generate_public_private_keypair();
    assert_eq!(keypair.public_key, x25519_dalek::x25519(keypair.private_key, x25519_dalek::X25519_BASEPOINT_BYTES));
}
