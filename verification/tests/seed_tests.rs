use cube_shuffle::seeding::{get_seed, parse_u64};
use itertools::Itertools;

#[test]
fn get_seed_unique() {
    let unique = ('A'..'z').map(|c| get_seed(&c.to_string())).all_unique();
    assert!(unique);
}

#[test]
fn numeric_seed_is_taken_verbatim() {
    assert_eq!(0, get_seed("0"));
    assert_eq!(7, get_seed("7"));
    assert_eq!(12345, get_seed("12345"));
    assert_eq!(7, get_seed("+7"));
    assert_eq!(7, get_seed("007"));
    assert_eq!(u64::MAX, get_seed("18446744073709551615"));
}

#[test]
fn seed_roundtrips_through_text() {
    for seed in [0u64, 1, 9, 10, 999, u64::MAX / 2, u64::MAX] {
        assert_eq!(seed, get_seed(&seed.to_string()));
    }
}

#[test]
fn non_numeric_seed_is_hashed_deterministically() {
    assert_eq!(get_seed("cube"), get_seed("cube"));
    assert_ne!(get_seed("cube"), get_seed("cubes"));
    assert_eq!(get_seed(""), get_seed(""));
}

#[test]
fn overflowing_number_falls_back_to_hashing() {
    // One above u64::MAX: not representable, so the digest path decides.
    let s = "18446744073709551616";
    assert_eq!(get_seed(s), get_seed(s));
    assert_ne!(get_seed(s), get_seed("18446744073709551617"));
}

#[test]
fn hash_reads_past_the_first_eight_bytes() {
    // The two inputs share their first eight bytes; only a digest of the
    // whole input can tell them apart.
    assert_ne!(get_seed("AAAAAAAAB"), get_seed("AAAAAAAAC"));
}

#[test]
fn parse_u64_accepts_exactly_decimals() {
    assert_eq!(Some(0), parse_u64("0"));
    assert_eq!(Some(42), parse_u64("42"));
    assert_eq!(Some(42), parse_u64("+42"));
    assert_eq!(Some(u64::MAX), parse_u64("18446744073709551615"));
    assert_eq!(None, parse_u64(""));
    assert_eq!(None, parse_u64("+"));
    assert_eq!(None, parse_u64("-1"));
    assert_eq!(None, parse_u64(" 7"));
    assert_eq!(None, parse_u64("7 "));
    assert_eq!(None, parse_u64("4x2"));
    assert_eq!(None, parse_u64("18446744073709551616"));
}

#[test]
fn parse_u64_matches_std() {
    let cases = [
        "", "+", "0", "007", "+42", "42", "4x2", "-1", " 7",
        "18446744073709551615", "18446744073709551616", "99999999999999999999999",
    ];
    for c in cases {
        assert_eq!(c.parse::<u64>().ok(), parse_u64(c), "case {:?}", c);
    }
}
