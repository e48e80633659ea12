use string_compressor::{u64_min_le_bytes, StringCompressor};

#[test]
fn concrete_scenario() {
    let mut e = StringCompressor::new();
    assert_eq!(e.compress("hello!".to_string()).unwrap(), "AA");
    assert_eq!(e.compress("hello!".to_string()).unwrap(), "AA");
    let world = e.compress("world".to_string()).unwrap();
    assert_ne!(world, "AA");
    assert_eq!(world, "AQ");
    assert_eq!(e.expand("AA".to_string()), Some("hello!".to_string()));
    assert_eq!(e.expand("zzzz".to_string()), None);
}

#[test]
fn first_alias_is_single_zero_byte_encoded() {
    let mut e = StringCompressor::new();
    let alias = e.compress(String::new()).unwrap();
    assert_eq!(alias, "AA");
    assert_eq!(alias.len(), 2);
}

#[test]
fn determinism_repeated_calls() {
    let mut e = StringCompressor::new();
    let inputs = ["", "a", "a longer input with spaces", "\u{1F600} unicode"];
    let mut first: Vec<String> = Vec::new();
    for s in inputs {
        first.push(e.compress(s.to_string()).unwrap());
    }
    for (s, alias) in inputs.iter().zip(first.iter()) {
        assert_eq!(&e.compress(s.to_string()).unwrap(), alias);
        assert_eq!(&e.compress(s.to_string()).unwrap(), alias);
    }
}

#[test]
fn injectivity_many_distinct_inputs() {
    let mut e = StringCompressor::new();
    let mut aliases: Vec<String> = Vec::new();
    for i in 0..300u32 {
        aliases.push(e.compress(format!("input-{}", i)).unwrap());
    }
    for i in 0..aliases.len() {
        for j in 0..i {
            assert_ne!(aliases[i], aliases[j], "ids {} and {} collided", i, j);
        }
    }
}

#[test]
fn round_trip_every_recorded_alias() {
    let mut e = StringCompressor::new();
    let inputs = ["", "x", "hello!", "hello !", "\u{00e9}l\u{00e8}ve", "line\nbreak"];
    for s in inputs {
        let alias = e.compress(s.to_string()).unwrap();
        assert_eq!(e.expand(alias), Some(s.to_string()));
    }
    // Still true after later insertions.
    for s in inputs {
        let alias = e.compress(s.to_string()).unwrap();
        assert_eq!(e.expand(alias), Some(s.to_string()));
    }
}

#[test]
fn unknown_alias_returns_none() {
    let mut fresh = StringCompressor::new();
    assert_eq!(fresh.expand("AA".to_string()), None);
    assert_eq!(fresh.expand(String::new()), None);
    let mut e = StringCompressor::new();
    e.compress("hello!".to_string()).unwrap();
    assert_eq!(e.expand("AQ".to_string()), None);
    assert_eq!(e.expand("hello!".to_string()), None);
    assert_eq!(e.expand("aa".to_string()), None);
}

#[test]
fn growth_boundary_one_byte_ids_shorter() {
    let mut e = StringCompressor::new();
    for i in 0..300u32 {
        let alias = e.compress(format!("entry-{}", i)).unwrap();
        if i <= 255 {
            assert_eq!(alias.len(), 2, "id {} should have a one-byte alias", i);
        } else {
            assert_eq!(alias.len(), 3, "id {} should have a two-byte alias", i);
        }
    }
}

#[test]
fn url_safe_alphabet_without_padding() {
    let mut e = StringCompressor::new();
    let mut alias = String::new();
    for i in 0..256u32 {
        alias = e.compress(format!("entry-{}", i)).unwrap();
    }
    // Id 255 encodes the byte 0xff: URL-safe base64 uses '_' where the
    // standard alphabet would use '/', and no '=' padding is appended.
    assert_eq!(alias, "_w");
    let boundary = e.compress("one past the boundary".to_string()).unwrap();
    // Id 256 encodes the two bytes [0x00, 0x01].
    assert_eq!(boundary, "AAE");
}

#[test]
fn min_le_bytes_exact_values() {
    assert_eq!(u64_min_le_bytes(0), vec![0]);
    assert_eq!(u64_min_le_bytes(1), vec![1]);
    assert_eq!(u64_min_le_bytes(255), vec![255]);
    assert_eq!(u64_min_le_bytes(256), vec![0, 1]);
    assert_eq!(u64_min_le_bytes(257), vec![1, 1]);
    assert_eq!(u64_min_le_bytes(65535), vec![255, 255]);
    assert_eq!(u64_min_le_bytes(65536), vec![0, 0, 1]);
    assert_eq!(u64_min_le_bytes(0x0102030405060708), vec![8, 7, 6, 5, 4, 3, 2, 1]);
    assert_eq!(u64_min_le_bytes(u64::MAX), vec![255; 8]);
}
