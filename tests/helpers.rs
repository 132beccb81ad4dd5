use wyw_shaker::helpers::{do_hash, format_36, normalize_path, slugify};

#[test]
fn test_slugify() {
    assert_eq!(slugify("hello"), "1rn7hzf");
    assert_eq!(slugify("world"), "1isa3om");
}

#[test]
fn format_36_writes_base_36() {
    assert_eq!(format_36(0), "0");
    assert_eq!(format_36(35), "z");
    assert_eq!(format_36(36), "10");
    assert_eq!(format_36(u32::MAX), "1z141z3");
}

#[test]
fn do_hash_of_empty_and_short_inputs() {
    assert_eq!(do_hash("", 0), 0);
    assert_ne!(do_hash("a", 0), do_hash("b", 0));
    assert_ne!(do_hash("hello", 0), do_hash("hello", 1));
}

#[test]
fn normalize_path_keeps_plain_paths() {
    assert_eq!(normalize_path("src/a.js"), "src/a.js");
    let sep = std::path::MAIN_SEPARATOR.to_string();
    assert_eq!(normalize_path("src\\a.js"), format!("src{}a.js", sep));
}
