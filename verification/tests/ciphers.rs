use classical_ciphers::cipher::Ciphers;
use classical_ciphers::keygen::CipherError;

#[test]
fn shift_cipher_works() {
    let key = 15;
    let message = String::from("HelloHowAreYou!");
    let manchine = Ciphers::ShiftCipher(key);
    let cipher = manchine.encrypt(message.clone());
    let result = manchine.decrypt(cipher);
    assert_eq!(result, message);
}

#[test]
fn trans_cipher_works() {
    let key_size = 5;
    let key = Ciphers::trans_key_gen(key_size).unwrap();
    let manchine = Ciphers::TransCipher(key);
    let message = String::from("HelloHowAreYou!");
    let cipher = manchine.encrypt(message.clone());
    let result = manchine.decrypt(cipher);
    assert_eq!(result, message);
}

#[test]
fn shift_known_vector() {
    let manchine = Ciphers::ShiftCipher(15);
    assert_eq!(manchine.encrypt(String::from("hello")), "wtaad");
    assert_eq!(manchine.decrypt(String::from("wtaad")), "hello");
}

#[test]
fn shift_key_acts_modulo_26() {
    let reduced = Ciphers::ShiftCipher(15);
    let large = Ciphers::ShiftCipher(15 + 26);
    assert_eq!(large.encrypt(String::from("hello")), "wtaad");
    assert_eq!(
        large.encrypt(String::from("Mixed, Case!")),
        reduced.encrypt(String::from("Mixed, Case!"))
    );
    assert_eq!(Ciphers::ShiftCipher(0).encrypt(String::from("hello")), "hello");
    assert_eq!(Ciphers::ShiftCipher(26).encrypt(String::from("hello")), "hello");
}

#[test]
fn shift_round_trip_all_keys() {
    let message = String::from("The quick brown Fox; 42 jumps!");
    for key in 0..=255u8 {
        let manchine = Ciphers::ShiftCipher(key);
        let cipher = manchine.encrypt(message.clone());
        assert_eq!(manchine.decrypt(cipher), message);
    }
}

#[test]
fn shift_leaves_non_alphabetic_text_unchanged() {
    let message = String::from("0123 456,789 .!?-");
    for key in [0u8, 1, 13, 25, 26, 200] {
        let manchine = Ciphers::ShiftCipher(key);
        assert_eq!(manchine.encrypt(message.clone()), message);
        assert_eq!(manchine.decrypt(message.clone()), message);
    }
}

#[test]
fn shift_empty_text() {
    let manchine = Ciphers::ShiftCipher(9);
    assert_eq!(manchine.encrypt(String::new()), "");
    assert_eq!(manchine.decrypt(String::new()), "");
}

#[test]
fn trans_known_vector() {
    let manchine = Ciphers::TransCipher(vec![1, 0, 3, 2]);
    assert_eq!(manchine.encrypt(String::from("abcde")), "badce");
    assert_eq!(manchine.decrypt(String::from("badce")), "abcde");
}

#[test]
fn trans_round_trip_fixed_key() {
    let manchine = Ciphers::TransCipher(vec![2, 0, 3, 1]);
    for message in ["", "a", "abc", "abcd", "abcdefgh", "abcdefghijk", "Hello, World 99!"] {
        let cipher = manchine.encrypt(String::from(message));
        assert_eq!(manchine.decrypt(cipher), message);
    }
}

#[test]
fn trans_single_block_is_skipped() {
    let manchine = Ciphers::TransCipher(vec![4, 3, 2, 1, 0]);
    assert_eq!(manchine.encrypt(String::from("abcde")), "abcde");
    assert_eq!(manchine.decrypt(String::from("abcde")), "abcde");
    let generated = Ciphers::TransCipher(Ciphers::trans_key_gen(3).unwrap());
    assert_eq!(generated.encrypt(String::from("xyz")), "xyz");
}

#[test]
fn trans_tail_is_preserved() {
    let manchine = Ciphers::TransCipher(vec![1, 0]);
    assert_eq!(manchine.encrypt(String::from("abc")), "bac");
    let cipher = manchine.encrypt(String::from("abcde"));
    assert_eq!(cipher, "badce");
    assert_eq!(&cipher[4..], "e");
}

#[test]
fn key_gen_produces_permutations() {
    for n in 1..=8usize {
        let key = Ciphers::trans_key_gen(n).unwrap();
        assert_eq!(key.len(), n);
        let mut counts = vec![0usize; n];
        for &x in &key {
            assert!(x < n);
            counts[x] += 1;
        }
        for c in counts {
            assert_eq!(c, 1);
        }
    }
}

#[test]
fn key_gen_rejects_size_zero() {
    assert_eq!(Ciphers::trans_key_gen(0), Err(CipherError::InvalidKeySize));
}

#[test]
fn key_accessor_is_stable() {
    let shift = Ciphers::ShiftCipher(7);
    assert_eq!(shift.key(), 7);
    assert_eq!(shift.key(), 7);
    let trans = Ciphers::TransCipher(vec![2, 1, 0]);
    assert_eq!(trans.key(), 3);
    assert_eq!(trans.key(), 3);
    assert_eq!(trans.encrypt(String::from("abcdefg")), "cbafedg");
    assert_eq!(trans.key(), 3);
}
