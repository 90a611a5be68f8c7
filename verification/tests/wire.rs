use quack_nav::map::b64_decode;
use quack_nav::wire::{b64_encode, sort_by_name, valid_name, MapMatchParams, MapNameParams, SavedMap};

#[test]
fn base64_round_trips_through_the_map_reader() {
    for bytes in [&b""[..], b"f", b"fo", b"foo", b"foob", b"fooba", b"foobar"] {
        assert_eq!(b64_decode(&b64_encode(bytes)).as_deref(), Some(bytes));
    }
    let all: Vec<u8> = (0..=255).collect();
    assert_eq!(b64_decode(&b64_encode(&all)), Some(all));
    assert_eq!(b64_encode(b"foobar"), "Zm9vYmFy");
}

#[test]
fn a_name_that_could_leave_the_directory_is_refused() {
    assert!(valid_name("house-2_a"));
    assert!(MapNameParams { name: "kitchen".into() }.is_valid());
    for bad in ["", "../x", "a.b", "a/b", "a b", "ü", &"x".repeat(65)] {
        assert!(!valid_name(bad), "{bad}");
    }
}

#[test]
fn base64_matches_the_rfc_vectors() {
    assert_eq!(b64_decode(""), Some(vec![]));
    assert_eq!(b64_decode("Zg=="), Some(b"f".to_vec()));
    assert_eq!(b64_decode("Zm8="), Some(b"fo".to_vec()));
    assert_eq!(b64_decode("Zm9v"), Some(b"foo".to_vec()));
    assert_eq!(b64_decode("Zm9vYmFy"), Some(b"foobar".to_vec()));
    assert_eq!(b64_decode("Z"), None);
    assert_eq!(b64_decode("Zm9v!"), None);
    let all: Vec<u8> = (0..=255).collect();
    assert_eq!(b64_decode(&b64_encode(&all)), Some(all));
}

#[test]
fn base64_encodes_each_padding_length() {
    assert_eq!(b64_encode(b""), "");
    assert_eq!(b64_encode(b"f"), "Zg==");
    assert_eq!(b64_encode(b"fo"), "Zm8=");
    assert_eq!(b64_encode(b"foo"), "Zm9v");
    assert_eq!(b64_encode(&[0xff, 0xfe, 0xfd]), "//79");
    assert_eq!(b64_encode(&[0xfb, 0xff]), "+/8=");
}

#[test]
fn a_name_of_sixty_four_is_the_longest() {
    assert!(valid_name(&"a".repeat(64)));
    assert!(!valid_name(&"a".repeat(65)));
    assert!(valid_name("-"));
    assert!(valid_name("_"));
}

#[test]
fn a_match_asks_for_the_library_or_one_valid_name() {
    assert!(MapMatchParams { name: None }.is_valid());
    assert!(MapMatchParams { name: Some("office".into()) }.is_valid());
    assert!(!MapMatchParams { name: Some("../office".into()) }.is_valid());
}

#[test]
fn the_library_is_listed_in_name_order() {
    let map = |name: &str, bytes: u64| SavedMap { name: name.into(), bytes, saved_at: 7 };
    let listed = sort_by_name(vec![map("office", 3), map("Bedroom", 1), map("attic", 2), map("bed", 4)]);
    let names: Vec<&str> = listed.iter().map(|m| m.name.as_str()).collect();
    assert_eq!(names, ["Bedroom", "attic", "bed", "office"]);
    assert_eq!(listed[3].bytes, 3);
    assert!(sort_by_name(Vec::new()).is_empty());
}
