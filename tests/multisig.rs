use iota_multisig::address::{add_address_digest, finalize_address, validate_address};
use iota_multisig::bundle::{Bundle, Transaction, Transfer};
use iota_multisig::error::MultisigError;
use iota_multisig::signing::{add_signature, get_digest, get_key};
use iota_multisig::transfer::{check_transfer_request, initiate_transfer, split_message};
use iota_multisig::trits::{trits_from_trytes, trytes_from_trits};

fn repeat(c: char, n: usize) -> String {
    std::iter::repeat(c).take(n).collect()
}

fn digest_a() -> String {
    let mut s = String::from("ABCDEFGHIJKLMNOPQRSTUVWXYZ9");
    while s.len() < 243 {
        s.push_str("ABCDEFGHIJKLMNOPQRSTUVWXYZ9");
    }
    s
}

fn digest_b() -> String {
    let mut s = String::from("ZYXWVUTSRQPONMLKJIHGFEDCBA9");
    while s.len() < 243 {
        s.push_str("ZYXWVUTSRQPONMLKJIHGFEDCBA9");
    }
    s
}

fn build(digests: &[String]) -> String {
    let mut state = String::new();
    for d in digests {
        state = add_address_digest(d, &state).unwrap();
    }
    finalize_address(&state).unwrap()
}

fn hasher(entries: &Vec<Transaction>) -> String {
    let mut h = repeat('H', 80);
    h.push(if entries.len() % 2 == 0 { 'E' } else { 'O' });
    h
}

fn transfer(value: i64, message: &str) -> Transfer {
    Transfer {
        address: repeat('B', 81),
        value,
        message: message.to_string(),
        tag: Some("TAG".to_string()),
    }
}

fn multisig_address() -> String {
    repeat('M', 81)
}

fn remainder_address() -> String {
    repeat('R', 81)
}

#[test]
fn tryte_codec_round_trip() {
    let t = trits_from_trytes("9AMNZ").unwrap();
    assert_eq!(t, vec![0, 0, 0, 1, 0, 0, 1, 1, 1, -1, -1, -1, -1, 0, 0]);
    assert_eq!(trytes_from_trits(&t), "9AMNZ");
    assert_eq!(trits_from_trytes("A1"), None);
}

#[test]
fn address_depends_on_digest_order() {
    let ab = build(&[digest_a(), digest_b()]);
    let ba = build(&[digest_b(), digest_a()]);
    assert_eq!(ab.len(), 81);
    assert_ne!(ab, ba);
}

#[test]
fn incremental_address_validates() {
    let digests = vec![digest_a(), digest_b()];
    let address = build(&digests);
    assert_eq!(validate_address(&address, &digests), Ok(true));
    let swapped = vec![digest_b(), digest_a()];
    assert_eq!(validate_address(&address, &swapped), Ok(false));
    let mut changed = digest_b();
    changed.replace_range(0..1, "9");
    assert_eq!(validate_address(&address, &vec![digest_a(), changed]), Ok(false));
}

#[test]
fn absorbing_changes_the_state() {
    let state = add_address_digest(&digest_a(), "").unwrap();
    assert_eq!(state.len(), 243);
    assert_ne!(state, repeat('9', 243));
    let address = finalize_address(&state).unwrap();
    assert_eq!(address, state[..81].to_string());
}

#[test]
fn malformed_state_and_digest_are_rejected() {
    assert_eq!(add_address_digest("AB1", ""), Err(MultisigError::MalformedState));
    assert_eq!(add_address_digest(&digest_a(), "a"), Err(MultisigError::MalformedState));
    assert_eq!(finalize_address("x"), Err(MultisigError::MalformedState));
    assert_eq!(
        validate_address(&repeat('A', 81), &vec!["?".to_string()]),
        Err(MultisigError::MalformedState)
    );
}

#[test]
fn exact_balance_leaves_no_remainder() {
    let ts = vec![transfer(10, "")];
    let b = initiate_transfer(2, 10, &multisig_address(), &remainder_address(), &ts, &hasher)
        .unwrap();
    assert_eq!(b.len(), 3);
    assert_eq!(b[0].value, 10);
    assert_eq!(b[1].value, -10);
    assert_eq!(b[1].address, multisig_address());
    assert_eq!(b[2].value, 0);
    assert_eq!(b[2].address, multisig_address());
    assert!(b.iter().all(|t| t.address != remainder_address()));
    for (k, t) in b.iter().enumerate() {
        assert_eq!(t.current_index, k);
        assert_eq!(t.last_index, 2);
        assert_eq!(t.bundle, hasher(&b));
    }
    assert_eq!(b[1].signature_fragments, repeat('9', 2187));
}

#[test]
fn surplus_balance_adds_one_remainder() {
    let ts = vec![transfer(10, "")];
    let b = initiate_transfer(1, 15, &multisig_address(), &remainder_address(), &ts, &hasher)
        .unwrap();
    assert_eq!(b.len(), 3);
    assert_eq!(b[1].address, remainder_address());
    assert_eq!(b[1].value, 5);
    assert_eq!(b[2].address, multisig_address());
    assert_eq!(b[2].value, -15);
    assert_eq!(b.iter().filter(|t| t.address == remainder_address()).count(), 1);
}

#[test]
fn short_balance_is_insufficient() {
    let ts = vec![transfer(10, ""), transfer(5, "")];
    let r = initiate_transfer(1, 14, &multisig_address(), &remainder_address(), &ts, &hasher);
    assert_eq!(r, Err(MultisigError::InsufficientBalance));
}

#[test]
fn zero_value_needs_no_signature() {
    let ts = vec![transfer(0, "HELLO"), transfer(0, "")];
    for balance in [0, 1, 1000] {
        let r = initiate_transfer(1, balance, &multisig_address(), &remainder_address(), &ts, &hasher);
        assert_eq!(r, Err(MultisigError::NoSignatureRequired));
    }
}

#[test]
fn invalid_inputs_are_named() {
    let ts = vec![transfer(1, "")];
    assert_eq!(
        initiate_transfer(1, 1, "ABC", &remainder_address(), &ts, &hasher),
        Err(MultisigError::InvalidAddress("ABC".to_string()))
    );
    assert_eq!(
        initiate_transfer(1, 1, &multisig_address(), "bad", &ts, &hasher),
        Err(MultisigError::InvalidAddress("bad".to_string()))
    );
    let negative = vec![transfer(-1, "")];
    assert_eq!(
        initiate_transfer(1, 1, &multisig_address(), &remainder_address(), &negative, &hasher),
        Err(MultisigError::InvalidTransferSet)
    );
    let bad_message = vec![transfer(1, "hello")];
    assert_eq!(
        initiate_transfer(1, 1, &multisig_address(), &remainder_address(), &bad_message, &hasher),
        Err(MultisigError::InvalidTransferSet)
    );
}

#[test]
fn long_message_takes_three_entries() {
    let message = repeat('A', 2187 * 2 + 2187 / 2);
    let ts = vec![transfer(7, &message)];
    let b = initiate_transfer(1, 7, &multisig_address(), &remainder_address(), &ts, &hasher)
        .unwrap();
    assert_eq!(b.len(), 4);
    assert_eq!(b[0].value, 7);
    assert_eq!(b[1].value, 0);
    assert_eq!(b[2].value, 0);
    assert_eq!(b[0].signature_fragments, repeat('A', 2187));
    assert_eq!(b[1].signature_fragments, repeat('A', 2187));
    let mut last = repeat('A', 2187 / 2);
    last.push_str(&repeat('9', 2187 - 2187 / 2));
    assert_eq!(b[2].signature_fragments, last);
    assert_eq!(b[3].address, multisig_address());
    assert_eq!(b[1].timestamp, b[0].timestamp);
    assert_eq!(b[2].timestamp, b[0].timestamp);
    assert_eq!(split_message(&message).len(), 3);
    assert_eq!(split_message("").len(), 1);
    assert_eq!(split_message(&repeat('A', 2187 * 2)).len(), 2);
}

#[test]
fn checksum_and_tag_are_normalized() {
    let mut t = transfer(3, "");
    t.address = repeat('C', 90);
    t.tag = None;
    let b = initiate_transfer(1, 3, &multisig_address(), &remainder_address(), &vec![t], &hasher)
        .unwrap();
    assert_eq!(b[0].address, repeat('C', 81));
    assert_eq!(b[0].tag, repeat('9', 27));
    assert!(b[0].timestamp > 0);
    let b = initiate_transfer(1, 3, &multisig_address(), &remainder_address(), &vec![transfer(3, "")], &hasher)
        .unwrap();
    let mut tag = "TAG".to_string();
    tag.push_str(&repeat('9', 24));
    assert_eq!(b[0].tag, tag);
    assert_eq!(b[1].tag, tag);
}

fn normalize(hash: &String) -> Vec<i8> {
    assert_eq!(hash.len(), 81);
    let mut n = vec![1i8; 27];
    n.extend(vec![2i8; 27]);
    n.extend(vec![3i8; 27]);
    n
}

fn sign(chunk: &Vec<i8>, key: &Vec<i8>) -> Vec<i8> {
    assert_eq!(chunk.len(), 27);
    assert_eq!(key.len(), 6561);
    let mut r = vec![0i8; 6561];
    r[0] = 1;
    r[1] = chunk[0] - 2;
    r[3] = key[0];
    r
}

fn unsigned_bundle(security_sum: usize) -> Bundle {
    let ts = vec![transfer(10, "")];
    let entries =
        initiate_transfer(security_sum, 10, &multisig_address(), &remainder_address(), &ts, &hasher)
            .unwrap();
    Bundle { entries }
}

fn unsigned_count(b: &Bundle) -> usize {
    b.entries
        .iter()
        .filter(|t| t.address == multisig_address() && t.signature_fragments.chars().all(|c| c == '9'))
        .count()
}

#[test]
fn cosigners_rotate_through_the_chunks() {
    let mut b = unsigned_bundle(3);
    assert_eq!(unsigned_count(&b), 3);
    let keys = [repeat('A', 2187), repeat('B', 2187), repeat('C', 2187)];
    for key in keys.iter() {
        add_signature(&mut b, &multisig_address(), key, &normalize, &sign).unwrap();
    }
    assert_eq!(unsigned_count(&b), 0);
    assert!(b.entries[1].signature_fragments.starts_with('Y'));
    assert!(b.entries[2].signature_fragments.starts_with('A'));
    assert!(b.entries[3].signature_fragments.starts_with('D'));
    assert_eq!(&b.entries[1].signature_fragments[1..2], "A");
    assert_eq!(&b.entries[2].signature_fragments[1..2], "Z");
    assert_eq!(&b.entries[3].signature_fragments[1..2], "9");
    assert_eq!(b.entries[1].signature_fragments.len(), 2187);
    let before = b.clone();
    add_signature(&mut b, &multisig_address(), &repeat('D', 2187), &normalize, &sign).unwrap();
    assert_eq!(b, before);
}

#[test]
fn security_two_key_signs_two_entries() {
    let mut b = unsigned_bundle(4);
    add_signature(&mut b, &multisig_address(), &repeat('A', 2187), &normalize, &sign).unwrap();
    add_signature(&mut b, &multisig_address(), &repeat('B', 2187 * 2), &normalize, &sign).unwrap();
    assert!(b.entries[1].signature_fragments.starts_with('Y'));
    assert!(b.entries[2].signature_fragments.starts_with('A'));
    assert!(b.entries[3].signature_fragments.starts_with('D'));
    assert_eq!(unsigned_count(&b), 1);
    add_signature(&mut b, &multisig_address(), &repeat('C', 2187), &normalize, &sign).unwrap();
    assert!(b.entries[4].signature_fragments.starts_with('Y'));
    assert_eq!(unsigned_count(&b), 0);
}

#[test]
fn malformed_keys_and_overruns_fail() {
    let mut b = unsigned_bundle(1);
    let before = b.clone();
    assert_eq!(
        add_signature(&mut b, &multisig_address(), "ABC", &normalize, &sign),
        Err(MultisigError::MalformedState)
    );
    assert_eq!(
        add_signature(&mut b, &multisig_address(), &repeat('a', 2187), &normalize, &sign),
        Err(MultisigError::MalformedState)
    );
    assert_eq!(
        add_signature(&mut b, &multisig_address(), &repeat('A', 2187 * 2), &normalize, &sign),
        Err(MultisigError::MalformedState)
    );
    assert_eq!(b, before);
    assert_eq!(
        add_signature(&mut b, &repeat('Q', 81), &repeat('A', 2187), &normalize, &sign),
        Ok(())
    );
    assert_eq!(b, before);
}

fn key_gen(seed: &Vec<i8>, index: usize, security: usize) -> Vec<i8> {
    let mut k = seed.clone();
    k.push(if index % 2 == 0 { 0 } else { 1 });
    k.push(0);
    k.push(if security > 1 { -1 } else { 0 });
    k
}

fn digest_of(key: &Vec<i8>) -> Vec<i8> {
    key.iter().map(|t| -t).collect()
}

#[test]
fn keys_fit_the_seed_to_the_security_level() {
    let k = get_key("A", 1, 1, &key_gen).unwrap();
    let mut expected = "A".to_string();
    expected.push_str(&repeat('9', 26));
    expected.push('A');
    assert_eq!(k, expected);
    let k = get_key("A", 0, 2, &key_gen).unwrap();
    assert_eq!(k.len(), 55);
    assert!(k.ends_with('R'));
    assert_eq!(get_key("A", 0, 0, &key_gen), Err(MultisigError::InvalidSecurityLevel(0)));
    assert_eq!(get_key("A", 0, 4, &key_gen), Err(MultisigError::InvalidSecurityLevel(4)));
    assert_eq!(get_key("a", 0, 1, &key_gen), Err(MultisigError::MalformedState));
}

#[test]
fn digests_use_one_hash_of_seed() {
    let d = get_digest("A", 0, 3, &key_gen, &digest_of).unwrap();
    assert_eq!(d.len(), 82);
    assert!(d.starts_with('Z'));
    assert!(d.ends_with('I'));
    assert_eq!(
        get_digest("A", 0, 5, &key_gen, &digest_of),
        Err(MultisigError::InvalidSecurityLevel(5))
    );
    assert_eq!(get_digest("!", 0, 1, &key_gen, &digest_of), Err(MultisigError::MalformedState));
}

#[test]
fn request_check_returns_the_total() {
    let ts = vec![transfer(10, ""), transfer(5, "")];
    assert_eq!(check_transfer_request(&multisig_address(), &remainder_address(), &ts), Ok(15));
    let zero = vec![transfer(0, "")];
    assert_eq!(
        check_transfer_request(&multisig_address(), &remainder_address(), &zero),
        Err(MultisigError::NoSignatureRequired)
    );
    let mut bad = transfer(1, "");
    bad.tag = Some(repeat('A', 28));
    assert_eq!(
        check_transfer_request(&multisig_address(), &remainder_address(), &vec![bad]),
        Err(MultisigError::InvalidTransferSet)
    );
}

#[test]
fn message_of_five_thousand_trytes_with_two_input_entries() {
    let t = Transfer {
        address: repeat('C', 81),
        value: 5,
        message: repeat('M', 5467),
        tag: None,
    };
    let b = initiate_transfer(2, 5, &repeat('A', 81), &repeat('B', 81), &vec![t], &hasher).unwrap();
    assert_eq!(b.len(), 5);
    assert_eq!(b[0].signature_fragments, repeat('M', 2187));
    assert_eq!(b[1].signature_fragments, repeat('M', 2187));
    let mut last = repeat('M', 1093);
    last.push_str(&repeat('9', 1094));
    assert_eq!(b[2].signature_fragments, last);
    for k in 0..3 {
        assert_eq!(b[k].address, repeat('C', 81));
    }
    assert_eq!(b[3].address, repeat('A', 81));
    assert_eq!(b[4].address, repeat('A', 81));
    assert_eq!(b[3].value, -5);
    assert!(b.iter().all(|e| e.address != repeat('B', 81)));
}

#[test]
fn checksum_is_stripped_before_validation() {
    let mut address = repeat('C', 81);
    address.push_str("abcdefghi");
    let mut t = transfer(2, "");
    t.address = address;
    let b = initiate_transfer(1, 4, &multisig_address(), &remainder_address(), &vec![t], &hasher)
        .unwrap();
    assert_eq!(b[0].address, repeat('C', 81));
    assert_eq!(b[1].address, remainder_address());
    assert_eq!(b[1].value, 2);
    assert_eq!(b[2].value, -4);
}
