use basita::components::{CollectionError, Components};
use basita::handle::ComponentHandle;

#[derive(Clone, Copy, Debug, PartialEq)]
struct Sprite {
    depth: i32,
    image: usize,
}

#[test]
fn get_after_add_returns_the_value() {
    let mut c: Components<String> = Components::new();
    let mut handles = Vec::new();
    for i in 0..20 {
        handles.push(c.add(format!("v{}", i)));
    }
    for (i, h) in handles.iter().enumerate() {
        assert_eq!(c.get(h), &format!("v{}", i));
        for (j, g) in handles.iter().enumerate() {
            assert_eq!(i == j, h == g);
        }
    }
    assert_eq!(c.len(), 20);
}

#[test]
fn three_sprites_keep_insertion_order() {
    let s1 = Sprite { depth: 1, image: 10 };
    let s2 = Sprite { depth: 2, image: 20 };
    let s3 = Sprite { depth: 3, image: 30 };
    let mut c: Components<Sprite> = Components::new();
    let h1 = c.add(s1);
    let h2 = c.add(s2);
    let h3 = c.add(s3);
    let seen: Vec<(ComponentHandle<Sprite>, Sprite)> = c.iter().iter().copied().collect();
    assert_eq!(seen.len(), 3);
    assert!(seen[0].0 == h1 && seen[1].0 == h2 && seen[2].0 == h3);
    assert_eq!(seen[0].1, s1);
    assert_eq!(seen[1].1, s2);
    assert_eq!(seen[2].1, s3);
    assert_eq!(*c.get_at(1), s2);
    assert!(c.get_handle(1) == h2);
    // a fresh walk gives the same sequence
    let again: Vec<Sprite> = c.iter().iter().map(|p| p.1).collect();
    assert_eq!(again, vec![s1, s2, s3]);
}

#[test]
fn get_mut_changes_only_its_entry() {
    let mut c: Components<i64> = Components::new();
    let a = c.add(1);
    let b = c.add(2);
    *c.get_mut(&b) += 40;
    assert_eq!(*c.get(&a), 1);
    assert_eq!(*c.get(&b), 42);
    *c.get_at_mut(0) = -7;
    assert_eq!(*c.get(&a), -7);
    assert_eq!(*c.get_at(1), 42);
}

#[test]
fn clear_empties_the_collection() {
    let mut c: Components<i32> = Components::new();
    c.add(1);
    c.add(2);
    c.clear();
    assert_eq!(c.len(), 0);
    let h = c.add(3);
    assert_eq!(*c.get(&h), 3);
    assert_eq!(c.len(), 1);
}

#[test]
fn wire_form_round_trips() {
    let mut c: Components<String> = Components::new();
    let names = ["a", "b", "c"];
    let handles: Vec<ComponentHandle<String>> =
        names.iter().map(|n| c.add(n.to_string())).collect();
    // encode each handle as text, as the wire form does
    let wire: Vec<(String, String)> =
        c.into_pairs().into_iter().map(|(h, v)| (h.to_text(), v)).collect();
    let pairs: Vec<(ComponentHandle<String>, String)> = wire
        .into_iter()
        .map(|(t, v)| (ComponentHandle::parse(&t).unwrap(), v))
        .collect();
    let back = Components::from_pairs(pairs).unwrap();
    for (h, n) in handles.iter().zip(names.iter()) {
        assert_eq!(back.get(h), n);
    }
    let order: Vec<String> = back.iter().iter().map(|p| p.1.clone()).collect();
    assert_eq!(order, vec!["a", "b", "c"]);
    for (i, h) in handles.iter().enumerate() {
        assert!(back.get_handle(i) == *h);
    }
}

#[test]
fn duplicate_handles_on_the_wire_are_refused() {
    let h = ComponentHandle::<u8>::parse("00000000-0000-0000-0000-00000000000a").unwrap();
    let r = Components::from_pairs(vec![(h, 1u8), (h, 2u8)]);
    assert!(matches!(r, Err(CollectionError::DuplicateHandle)));
}

#[test]
fn adding_after_a_rebuild_issues_a_fresh_handle() {
    let h0 = ComponentHandle::<u8>::parse("00000000-0000-0000-0000-000000000000").unwrap();
    let h1 = ComponentHandle::<u8>::parse("00000000-0000-0000-0000-000000000001").unwrap();
    let mut c = Components::from_pairs(vec![(h1, 1u8), (h0, 0u8)]).unwrap();
    let h = c.add(2);
    assert!(h != h0 && h != h1);
    assert_eq!(*c.get(&h0), 0);
    assert_eq!(*c.get(&h1), 1);
    assert_eq!(*c.get(&h), 2);
    assert_eq!(c.len(), 3);
}

#[test]
fn empty_wire_form_rebuilds_empty() {
    let c = Components::<u8>::from_pairs(Vec::new()).unwrap();
    assert_eq!(c.len(), 0);
    assert!(c.iter().is_empty());
}

#[test]
fn contains_tells_issued_handles_from_foreign_ones() {
    let mut c: Components<u8> = Components::new();
    let h = c.add(1);
    assert!(c.contains(&h));
    let foreign = ComponentHandle::<u8>::parse("00000000-0000-0000-0000-0000000000ff").unwrap();
    assert!(!c.contains(&foreign));
    c.clear();
    assert!(!c.contains(&h));
}
