use pmod::hash::{dl_hash, DLHash};

#[test]
fn hash_of_empty_is_zero() {
    assert_eq!(dl_hash(&[]), 0);
}

#[test]
fn hash_exact_value() {
    // Fold of r * 137 + unit over normalized units: "abc" is already lower
    // case, so 97, then 97 * 137 + 98, then that * 137 + 99.
    assert_eq!(dl_hash(&[97, 98, 99]), 1_834_118);
}

#[test]
fn hash_is_case_insensitive() {
    let lower: &[u8] = b"someparamtable";
    let upper: &[u8] = b"SOMEPARAMTABLE";
    assert_eq!(lower.strhash(), upper.strhash());
}

#[test]
fn hash_normalizes_backslash() {
    // A backslash (92) is replaced by 47 outright, while a real slash (47)
    // falls in the case-folding range and is shifted by 32 like any byte up
    // to b'Z'.
    assert_eq!(dl_hash(&[92]), 47);
    assert_eq!(dl_hash(&[47]), 79);
}

#[test]
fn hash_agrees_across_unit_widths() {
    let narrow: &[u8] = b"regulation";
    let wide: Vec<u16> = b"regulation".iter().map(|&b| b as u16).collect();
    let wider: Vec<u32> = b"regulation".iter().map(|&b| b as u32).collect();
    assert_eq!(narrow.strhash(), wide.as_slice().strhash());
    assert_eq!(narrow.strhash(), wider.as_slice().strhash());
}

#[test]
fn hash_wraps_on_long_input() {
    // 32-bit wrapping: hashing many bytes must not panic and stays stable.
    let long: Vec<u8> = (0u32..10_000).map(|i| (i % 251) as u8).collect();
    assert_eq!(long.as_slice().strhash(), long.as_slice().strhash());
}
