use kagari::labels::{place, LabelMap, Place};

fn listing(m: &LabelMap<u32>) -> Vec<(String, u32)> {
    (0..m.len()).map(|i| (m.label_at(i).to_string(), *m.value_at(i))).collect()
}

#[test]
fn labels_are_ordered_as_strings_are() {
    let labels = ["", "CPU core 1", "CPU core 10", "CPU core 2", "GPU", "é", "z", "\u{ffff}", "\u{10000}"];
    for a in labels {
        for b in labels {
            match place(a, b) {
                Place::Before => assert!(a < b),
                Place::Same => assert!(a == b),
                Place::After => assert!(a > b),
            }
        }
    }
}

#[test]
fn the_order_of_entries_depends_on_labels_alone() {
    let mut a = LabelMap::new();
    let mut b = LabelMap::new();
    for (k, v) in [("c", 3u32), ("a", 1), ("b", 2)] {
        a.insert(k, v);
    }
    for (k, v) in [("b", 2u32), ("a", 9), ("c", 3), ("a", 1)] {
        b.insert(k, v);
    }
    assert_eq!(listing(&a), vec![("a".to_string(), 1), ("b".to_string(), 2), ("c".to_string(), 3)]);
    assert_eq!(listing(&a), listing(&b));
}

#[test]
fn entries_are_found_and_changed_in_place() {
    let mut m = LabelMap::new();
    m.insert("x", 1u32);
    m.insert("y", 2);
    assert_eq!(m.get("x"), Some(&1));
    assert_eq!(m.get("z"), None);
    assert!(m.contains("y") && !m.contains(""));
    if let Some(v) = m.get_mut("x") {
        *v = 5;
    }
    assert!(m.get_mut("z").is_none());
    assert_eq!(listing(&m), vec![("x".to_string(), 5), ("y".to_string(), 2)]);
}

#[test]
fn later_entries_replace_earlier_ones() {
    let entries = vec![("b".to_string(), 1u32), ("a".to_string(), 2), ("b".to_string(), 3)];
    let m = LabelMap::from_entries(&entries);
    assert_eq!(m.entries(), &vec![("a".to_string(), 2), ("b".to_string(), 3)]);
}
