use std::collections::hash_map::DefaultHasher;
use std::hash::{Hash, Hasher};

use basita::components::Components;
use basita::handle::{ComponentHandle, HandleError};

fn hash_of<T>(h: &ComponentHandle<T>) -> u64 {
    let mut state = DefaultHasher::new();
    h.hash(&mut state);
    state.finish()
}

#[test]
fn malformed_handle_text_is_an_error() {
    let r = ComponentHandle::<i32>::parse("not-a-uuid");
    assert!(matches!(r, Err(HandleError::MalformedHandle)));
    assert!(ComponentHandle::<i32>::parse("").is_err());
    assert!(ComponentHandle::<i32>::parse("123e4567-e89b-12d3-a456-42661417400g").is_err());
    assert!(ComponentHandle::<i32>::parse("123e4567e-89b-12d3-a456-426614174000").is_err());
    assert!(ComponentHandle::<i32>::parse("123e4567-e89b-12d3-a456-4266141740000").is_err());
}

#[test]
fn well_formed_text_parses() {
    let text = "123e4567-e89b-12d3-a456-426614174000";
    let h = ComponentHandle::<i32>::parse(text).unwrap();
    assert_eq!(h.to_text(), text);
}

#[test]
fn upper_case_digits_parse_and_print_lower_case() {
    let h = ComponentHandle::<i32>::parse("ABCDEF01-2345-6789-ABCD-EF0123456789").unwrap();
    assert_eq!(h.to_text(), "abcdef01-2345-6789-abcd-ef0123456789");
    let l = ComponentHandle::<i32>::parse("abcdef01-2345-6789-abcd-ef0123456789").unwrap();
    assert!(h == l);
}

#[test]
fn extreme_ids_print_exactly() {
    let zero = ComponentHandle::<i32>::parse("00000000-0000-0000-0000-000000000000").unwrap();
    assert_eq!(zero.to_text(), "00000000-0000-0000-0000-000000000000");
    let max = ComponentHandle::<i32>::parse("ffffffff-ffff-ffff-ffff-ffffffffffff").unwrap();
    assert_eq!(max.to_text(), "ffffffff-ffff-ffff-ffff-ffffffffffff");
    assert!(zero != max);
}

#[test]
fn issued_handles_print_their_ids() {
    let mut c: Components<i32> = Components::new();
    let a = c.add(5);
    let b = c.add(6);
    assert_eq!(a.to_text(), "00000000-0000-0000-0000-000000000000");
    assert_eq!(b.to_text(), "00000000-0000-0000-0000-000000000001");
}

#[test]
fn handle_text_round_trips() {
    let mut c: Components<&str> = Components::new();
    let h = c.add("x");
    let back = ComponentHandle::<&str>::parse(&h.to_text()).unwrap();
    assert!(back == h);
    assert_eq!(*c.get(&back), "x");
}

#[test]
fn distinct_handles_compare_and_hash_apart() {
    let mut c: Components<u8> = Components::new();
    let h1 = c.add(1);
    let h2 = c.add(2);
    assert!(h1 != h2);
    assert!(h1 == h1);
    let copy = h1;
    assert!(copy == h1);
    assert_eq!(hash_of(&copy), hash_of(&h1));
    assert_ne!(hash_of(&h1), hash_of(&h2));
}
