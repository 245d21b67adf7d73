use std::collections::hash_map::DefaultHasher;
use std::hash::{Hash, Hasher};
use qumulus::path::Path;
use qumulus::store::zonefilename;
use qumulus::text::format_number;

fn std_hash(s: &str) -> String {
    let mut hasher = DefaultHasher::new();
    s.to_string().hash(&mut hasher);
    format!("{:X}", hasher.finish())
}

#[test]
fn zone_file_names() {
    let root = Path::new(vec![]);
    assert_eq!(zonefilename(&root), format!("r_{}", std_hash("")));

    let p = Path::new(vec!["moo".into(), "#cow".into()]);
    assert_eq!(zonefilename(&p), format!("rmoo_#cow_{}", std_hash("moo.#cow")));

    let p = Path::new(vec!["a b".into(), "é".into()]);
    assert_eq!(zonefilename(&p), format!("ra_b___{}", std_hash("a b.é")));
}

#[test]
fn zone_file_names_are_cut_to_80_bytes() {
    let long = "x".repeat(100);
    let p = Path::new(vec![long.clone()]);
    let name = zonefilename(&p);
    assert_eq!(name, format!("r{}_{}", "x".repeat(79), std_hash(&long)));
}

#[test]
fn hex_and_decimal() {
    assert_eq!(format_number(0, 16), "0");
    assert_eq!(format_number(255, 16), "FF");
    assert_eq!(format_number(u64::MAX, 16), format!("{:X}", u64::MAX));
    assert_eq!(format_number(1234567890, 10), "1234567890");
    assert_eq!(format_number(10, 10), "10");
}
