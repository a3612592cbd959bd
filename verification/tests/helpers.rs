use cartographer::common::{pascal_case_to_snake_case, Quantifier};
use cartographer::eu4_map::majority_owner;
use cartographer::helpers::SplitAtFirst;

#[test]
fn split_slices_at_first_match() {
    let v = [1, 2, 3, 2];
    let s: &[i32] = &v;
    assert_eq!(s.split_at_first(|x: &i32| *x == 2), Some((&v[..1], &v[2..])));
    assert_eq!(s.split_at_first_inclusive(|x: &i32| *x == 2), Some((&v[..1], &v[1..])));
    assert_eq!(s.split_at_first(|x: &i32| *x == 9), None);
    assert_eq!(s.split_at_first_inclusive(|x: &i32| *x > 9), None);
}

#[test]
fn split_strings_at_first_match() {
    let s = "key=value=more";
    assert_eq!(s.split_at_first(|c: &char| *c == '='), Some(("key", "value=more")));
    assert_eq!(s.split_at_first_inclusive(|c: &char| *c == '='), Some(("key", "=value=more")));
    assert_eq!("äö=ü".split_at_first(|c: &char| *c == '='), Some(("äö", "ü")));
    assert_eq!("none".split_at_first(|c: &char| *c == '='), None);
}

#[test]
fn snake_case_names() {
    assert_eq!(pascal_case_to_snake_case("PascalCase"), "pascal_case");
    assert_eq!(pascal_case_to_snake_case("ABC"), "a_b_c");
    assert_eq!(pascal_case_to_snake_case("already"), "already");
    assert_eq!(pascal_case_to_snake_case("Éclair"), "Éclair");
    assert_eq!(pascal_case_to_snake_case(""), "");
    assert_ne!(Quantifier::Single, Quantifier::Multiple);
}

#[test]
fn majority_owner_of_provinces() {
    let owners = vec![(1, "AAA".to_string()), (2, "AAA".to_string()), (3, "BBB".to_string())];
    assert_eq!(majority_owner(&vec![1, 2, 3], &owners), Some("AAA".to_string()));
    assert_eq!(majority_owner(&vec![1, 2, 3, 4], &owners), None);
    assert_eq!(majority_owner(&vec![3], &owners), Some("BBB".to_string()));
    assert_eq!(majority_owner(&vec![], &owners), None);
}
