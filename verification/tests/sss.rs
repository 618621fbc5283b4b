use shamir_gf256::gf256::GF256;
use shamir_gf256::shamir::{split, split_with, reconstruct, Share};
use shamir_gf256::codec::{share_to_hex, share_from_hex, ShareCodecError};

#[test]
fn gf_add_mul() {
    let a = GF256(0x57);
    let b = GF256(0x83);
    assert_eq!(a.add(b).0, 0xD4);
    assert_eq!(a.mul(b).0, 0xC1);
}

#[test]
fn round_trip() {
    let secret = b"AB";
    let threshold = 4;
    let shares = 4;
    let parts = split(secret, threshold, shares);
    let recovered = reconstruct(&parts, threshold);
    assert_eq!(recovered, secret);

    println!("Secret_str: {:?}", String::from_utf8_lossy(secret));
    println!("Secret: {secret:?}");
    println!("Parts: {parts:?}");
    println!("Parts_0: {:?}", parts[0]);

    println!("Treshhold: {threshold:?}");
    println!("Result: {}", String::from_utf8_lossy(&recovered));
}

#[test]
fn shr2_roundtrip_and_correction() {
    let sh = Share { x: GF256(0x2A), y: b"hello, world!".to_vec() };
    let ecc = 16;
    let hex_str = share_to_hex(&sh, ecc);

    // Corrupt some bytes inside the stored codeword
    let mut bytes = hex::decode(&hex_str).unwrap();
    // flip a few bytes within the codeword region
    let base = 4 + 1 + 1 + 4; // header size for SHR2
    bytes[base + 0] ^= 0x55;
    bytes[base + 5] ^= 0xAA;
    let corrupted = hex::encode(bytes);

    // Should still decode to original y
    let decoded = share_from_hex(&corrupted).unwrap();
    assert_eq!(decoded, sh);
}

#[test]
fn integrates_with_split_reconstruct() {
    let secret = b"supersecret";
    let shares = split(secret, 3, 5);

    // encode each share with ECC
    let blobs: Vec<String> = shares.iter().map(|s| share_to_hex(s, 16)).collect();

    // decode & recover the same shares
    let decoded: Vec<Share> = blobs.iter().map(|h| share_from_hex(h).unwrap()).collect();
    assert_eq!(shares, decoded);
}

#[test]
fn every_nonzero_element_has_inverse() {
    for a in 1..=255u8 {
        let e = GF256(a);
        assert_eq!(e.mul(e.inv()).0, 1);
        assert_eq!(e.div(e).0, 1);
    }
}

#[test]
fn addition_is_self_inverse_and_mul_commutes_distributes() {
    let samples = [0u8, 1, 2, 3, 0x53, 0x80, 0xCA, 0xFF];
    for &a in &samples {
        for &b in &samples {
            assert_eq!(GF256(a).add(GF256(b)).add(GF256(b)).0, a);
            assert_eq!(GF256(a).sub(GF256(b)).0, GF256(a).add(GF256(b)).0);
            assert_eq!(GF256(a).mul(GF256(b)).0, GF256(b).mul(GF256(a)).0);
            for &c in &samples {
                let left = GF256(a).mul(GF256(b).add(GF256(c)));
                let right = GF256(a).mul(GF256(b)).add(GF256(a).mul(GF256(c)));
                assert_eq!(left.0, right.0);
            }
        }
    }
}

#[test]
fn pow_concrete_values() {
    assert_eq!(GF256(2).pow(8).0, 0x1B);
    assert_eq!(GF256(0x57).pow(0).0, 1);
    assert_eq!(GF256(0).pow(0).0, 1);
    assert_eq!(GF256(0).pow(5).0, 0);
}

#[test]
fn any_threshold_subset_reconstructs_the_same_secret() {
    let secret = b"subset independence";
    let shares = split(secret, 3, 5);
    let pick = |idxs: &[usize]| -> Vec<Share> { idxs.iter().map(|&i| shares[i].clone()).collect() };
    let a = reconstruct(&pick(&[0, 1, 2]), 3);
    let b = reconstruct(&pick(&[0, 1, 3]), 3);
    let c = reconstruct(&pick(&[1, 3, 4]), 3);
    assert_eq!(a, secret);
    assert_eq!(b, secret);
    assert_eq!(c, secret);
}

#[test]
fn fewer_than_threshold_shares_miss_the_secret() {
    // 16 secret bytes: two shares agreeing with the secret by chance has
    // probability 2^-128
    let secret = b"0123456789abcdef";
    let shares = split(secret, 3, 5);
    let two: Vec<Share> = shares[..2].to_vec();
    let guessed = reconstruct(&two, 2);
    assert_ne!(guessed, secret.to_vec());
}

#[test]
fn hex_encoding_is_lowercase_and_layout_exact() {
    let sh = Share { x: GF256(0xAB), y: vec![0x00, 0xFF] };
    let hex_str = share_to_hex(&sh, 2);
    // magic "SHR1", x = ab, ecc = 02, y_len = 2 LE, then y || 2 parity bytes
    assert!(hex_str.starts_with("53485231ab0202000000" ));
    assert_eq!(hex_str.len(), 2 * (10 + 2 + 2));
    assert_eq!(&hex_str[20..24], "00ff");
}

#[test]
fn wrong_magic_is_rejected() {
    let sh = Share { x: GF256(1), y: b"abc".to_vec() };
    let mut bytes = hex::decode(share_to_hex(&sh, 4)).unwrap();
    bytes[0] ^= 0x01;
    let r = share_from_hex(&hex::encode(bytes));
    assert!(matches!(r, Err(ShareCodecError::BadMagic)));
}

#[test]
fn truncated_buffers_are_rejected_at_every_boundary() {
    let sh = Share { x: GF256(7), y: b"abcd".to_vec() };
    let full = share_to_hex(&sh, 4);
    for cut in [0, 2, 6, 8, 10, 12, 18, full.len() - 2] {
        let r = share_from_hex(&full[..cut]);
        assert!(matches!(r, Err(ShareCodecError::Truncated)), "cut {cut}");
    }
}

#[test]
fn trailing_bytes_are_rejected() {
    let sh = Share { x: GF256(7), y: b"abcd".to_vec() };
    let mut full = share_to_hex(&sh, 4);
    full.push_str("00");
    let r = share_from_hex(&full);
    assert!(matches!(r, Err(ShareCodecError::Truncated)));
}

#[test]
fn bad_hex_is_rejected() {
    assert!(matches!(share_from_hex("zz"), Err(ShareCodecError::Hex)));
    assert!(matches!(share_from_hex("535"), Err(ShareCodecError::Hex)));
}

#[test]
fn small_parity_count_is_rejected() {
    // magic, x = 01, ecc = 01 (below 2), y_len = 0
    let r = share_from_hex("5348523101010000000000");
    assert!(matches!(r, Err(ShareCodecError::Truncated)));
}

#[test]
fn oversized_codeword_fails_ecc() {
    // declared y_len 300 with ecc 2: codeword could never be a field
    // codeword; supply enough bytes so the header checks all pass
    let mut s = String::from("53485231010202010000");
    for _ in 0..302 {
        s.push_str("00");
    }
    let r = share_from_hex(&s);
    assert!(matches!(r, Err(ShareCodecError::EccDecode)));
}

#[test]
fn heavy_corruption_fails_ecc() {
    let sh = Share { x: GF256(0x2A), y: b"hello, world!".to_vec() };
    let mut bytes = hex::decode(share_to_hex(&sh, 16)).unwrap();
    let base = 10;
    for k in 0..13 {
        bytes[base + k] ^= 0x5A;
    }
    let r = share_from_hex(&hex::encode(bytes));
    assert!(matches!(r, Err(ShareCodecError::EccDecode)));
}

#[test]
fn corruption_at_the_bound_is_corrected() {
    // ecc 16 corrects floor(16/2) = 8 errors
    let sh = Share { x: GF256(0x11), y: b"bounded errors!".to_vec() };
    let mut bytes = hex::decode(share_to_hex(&sh, 16)).unwrap();
    for k in 0..8 {
        bytes[10 + 2 * k] ^= 0xA5;
    }
    let decoded = share_from_hex(&hex::encode(bytes)).unwrap();
    assert_eq!(decoded, sh);
}

#[test]
fn empty_secret_round_trips() {
    let shares = split(b"", 2, 3);
    assert_eq!(shares.len(), 3);
    let recovered = reconstruct(&shares, 2);
    assert_eq!(recovered, Vec::<u8>::new());
    let blob = share_to_hex(&shares[0], 2);
    let back = share_from_hex(&blob).unwrap();
    assert_eq!(back, shares[0]);
}

#[test]
fn split_with_fixed_coefficients_is_deterministic_and_exact() {
    // secret byte 0x41 shared through the polynomial 0x41 + 0x01*X,
    // so share i carries 0x41 ^ (i + 1)
    let coeffs = vec![0x01u8];
    let a = split_with(b"A", 2, 3, &coeffs);
    let b = split_with(b"A", 2, 3, &coeffs);
    assert_eq!(a[0].y, vec![0x41 ^ 0x01]);
    assert_eq!(a[1].y, vec![0x41 ^ 0x02]);
    assert_eq!(a[2].y, vec![0x41 ^ 0x03]);
    assert_eq!(a, b);
    let recovered = reconstruct(&a, 2);
    assert_eq!(recovered, b"A".to_vec());
}

#[test]
fn oversized_parity_count_fails_ecc() {
    // ecc = 0xff with y_len = 0: a 255-byte codeword region whose one
    // corrupted byte lies within floor(255/2) errors of the all-zero
    // codeword, but a parity count above 170 must fail cleanly
    let mut s = String::new();
    s.push_str("53485231"); // magic
    s.push_str("01"); // x
    s.push_str("ff"); // ecc
    s.push_str("00000000"); // y_len = 0
    s.push_str("01"); // one corrupted codeword byte
    for _ in 0..254 {
        s.push_str("00");
    }
    let r = share_from_hex(&s);
    assert!(matches!(r, Err(ShareCodecError::EccDecode)));
}

#[test]
fn maximal_parity_count_corrects_at_the_bound() {
    // ecc = 170 is the largest accepted parity count; it still corrects
    // floor(170/2) = 85 errors
    let sh = Share { x: GF256(0x01), y: vec![0x42] };
    let hex_str = share_to_hex(&sh, 170);
    let mut bytes = hex::decode(&hex_str).unwrap();
    for k in 0..85 {
        bytes[10 + 2 * k] ^= 0x5A;
    }
    let decoded = share_from_hex(&hex::encode(bytes)).unwrap();
    assert_eq!(decoded, sh);
}

#[test]
fn threshold_one_shares_equal_secret() {
    let shares = split(b"plain", 1, 3);
    for sh in &shares {
        assert_eq!(sh.y, b"plain".to_vec());
    }
    let recovered = reconstruct(&shares, 1);
    assert_eq!(recovered, b"plain".to_vec());
}
