use wstf::update::Update;
use wstf::utils::{
    bigram, decode_insert_into, encode_insert_into, epoch_to_human, fill_digits,
    parse_wstf_metadata_tags, within_range,
};

#[test]
fn test_bigram() {
    let a = vec![1, 2, 3];
    assert_eq!(bigram(&a), vec![(1, 2), (2, 3)]);
}

#[test]
fn test_stringify_epoch() {
    let epoch = 1518488928;
    assert_eq!("2018-02-13 02:28:48 UTC", epoch_to_human(epoch));
}

#[test]
fn wstf_metadata_tags_parsing() {
    let sample_env = "foo,bar,key:value,test2";
    let parsed: Vec<String> = sample_env.split(',').map(String::from).collect();

    let expected: Vec<String> = ["foo", "bar", "key:value", "test2"]
        .iter()
        .map(|s| String::from(*s))
        .collect();

    assert_eq!(parsed, expected);
    assert_eq!(parse_wstf_metadata_tags(sample_env), expected);
}

#[test]
fn metadata_tags_of_empty_string() {
    assert_eq!(parse_wstf_metadata_tags(""), vec![String::new()]);
}

#[test]
fn fill_digits_normalizes_magnitude() {
    assert_eq!(fill_digits(0), 0);
    assert_eq!(fill_digits(1_518_488_928), 1_518_488_928_000);
    assert_eq!(fill_digits(1_518_488_928_000), 1_518_488_928_000);
    assert_eq!(fill_digits(1_518_488_928_000_123), 1_518_488_928_000_123);
}

#[test]
fn within_range_checks_overlap() {
    assert!(within_range(5, 10, 8, 20));
    assert!(!within_range(5, 10, 11, 20));
    assert!(within_range(5, 10, 10, 20));
}

#[test]
fn insert_envelope_roundtrip() {
    let u = Update {
        ts: 20000001,
        seq: 113,
        is_trade: false,
        is_bid: true,
        price_bits: 5100.01_f32.to_bits(),
        size_bits: 1.14564564645_f32.to_bits(),
    };
    let env = encode_insert_into(Some("book42"), &u);
    let (decoded, name) = decode_insert_into(&env).unwrap();
    assert_eq!(decoded, Some(u));
    assert_eq!(name, Some(b"book42".to_vec()));
}

#[test]
fn insert_envelope_without_name() {
    let u = Update {
        ts: 7,
        seq: 1,
        is_trade: true,
        is_bid: false,
        price_bits: 0,
        size_bits: 0,
    };
    let env = encode_insert_into(None, &u);
    assert_eq!(&env[0..2], b"ra");
    assert_eq!(*env.last().unwrap(), b'\n');
    let (decoded, name) = decode_insert_into(&env).unwrap();
    assert_eq!(decoded, Some(u));
    assert_eq!(name, None);
}

#[test]
fn insert_envelope_rejects_long_names() {
    let u = Update {
        ts: 7,
        seq: 1,
        is_trade: false,
        is_bid: false,
        price_bits: 0,
        size_bits: 0,
    };
    let long_name = "x".repeat(65);
    let env = encode_insert_into(Some(&long_name), &u);
    assert_eq!(decode_insert_into(&env), None);
}

#[test]
fn time_boundaries_are_evenly_spaced() {
    let bs = wstf::utils::time_boundaries(1_000, 10_000, 10);
    assert_eq!(
        bs,
        vec![1000, 2000, 3000, 4000, 5000, 6000, 7000, 8000, 9000, 10000]
    );
    // a span that does not divide evenly still stays within the window
    let bs2 = wstf::utils::time_boundaries(0, 10, 4);
    assert_eq!(bs2, vec![0, 3, 6, 9]);
}
