use cyberpunk_utility::hash::{hash_bytes, hash_name, hash_path, FNV_OFFSET_BASIS, FNV_PRIME};

#[test]
fn empty_input_hashes_to_the_offset_basis() {
    assert_eq!(hash_bytes(&[]), 0xcbf29ce484222325);
    assert_eq!(hash_name(""), FNV_OFFSET_BASIS);
}

#[test]
fn one_byte_is_xored_then_multiplied() {
    assert_eq!(
        hash_bytes(&[0x61]),
        (FNV_OFFSET_BASIS ^ 0x61).wrapping_mul(FNV_PRIME)
    );
    assert_eq!(hash_name("a"), 0xaf63dc4c8601ec8c);
}

#[test]
fn known_values() {
    assert_eq!(hash_name("foobar"), 0x85944171f73967e8);
    assert_eq!(hash_bytes(b"hello"), 0xa430d84680aabd0b);
}

#[test]
fn names_are_hashed_over_their_utf8_bytes() {
    assert_eq!(hash_name("\u{e9}"), hash_bytes(&[0xc3, 0xa9]));
}

#[test]
fn paths_are_hashed_as_their_string_form() {
    assert_eq!(
        hash_path("archive/pc/mod/a.archive"),
        hash_bytes(b"archive/pc/mod/a.archive")
    );
    assert_ne!(hash_path("archive/pc/mod/a.archive"), hash_path("archive/pc/mod/b.archive"));
}
