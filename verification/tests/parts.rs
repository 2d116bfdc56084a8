//! Instants, texts, charges and ordered maps.
use control_router::charge::{node_charge, times, Admission};
use control_router::go_time::GoTime;
use control_router::ordered::OrderedMap;
use control_router::slices::{are_identities, holds, same};
use control_router::texts;

fn time(seconds: i64, nanos: u32, monotonic: Option<i64>) -> GoTime {
    GoTime::new(seconds, nanos, 1, monotonic).unwrap_or_else(|| unreachable!("fixture"))
}

#[test]
fn differences_prefer_the_monotonic_reading_and_saturate() {
    assert!(GoTime::new(0, 1_000_000_000, 1, None).is_none());
    let early = time(5, 999_999_999, Some(10));
    let late = time(6, 1, Some(30));
    assert_eq!(late.sub_nanoseconds(early), 20);
    assert_eq!(time(6, 1, None).sub_nanoseconds(early), 2);
    assert_eq!(early.sub_nanoseconds(time(6, 1, None)), -2);
    assert_eq!(
        time(i64::MAX, 0, None).sub_nanoseconds(time(i64::MIN, 0, None)),
        i64::MAX
    );
    assert_eq!(
        time(i64::MIN, 0, None).sub_nanoseconds(time(i64::MAX, 0, None)),
        i64::MIN
    );
    assert!(!early.plus_is_after(20, late), "equality is not after");
    assert!(early.plus_is_after(21, late));
    assert!(!early.plus_is_after(19, late));
}

#[test]
fn admissions_record_only_what_they_cover() {
    let mut admission = Admission::new(10);
    assert!(admission.cover(10));
    assert!(admission.cover(4));
    assert!(!admission.cover(11));
    assert_eq!((admission.last, admission.peak), (4, 10));
    assert_eq!(node_charge::<u64>(), 128);
    assert_eq!(times(3, 7), 21);
    assert_eq!(times(usize::MAX, 2), usize::MAX);
}

#[test]
fn texts_are_split_at_the_first_colon() {
    for (value, cluster, port) in [
        ("alpha:6000", "alpha", "6000"),
        ("6000", "", "6000"),
        ("a:b:c", "a", "b:c"),
        (":6000", "", "6000"),
    ] {
        assert_eq!(
            texts::split(value.as_bytes()),
            (cluster.as_bytes(), port.as_bytes())
        );
    }
    let list: Vec<String> = vec!["a".into(), "\u{e9}".into()];
    assert_eq!(texts::total_length(&list), 3, "bytes, not characters");
    assert!(texts::distinct(&list));
    assert!(texts::shares(&list, &vec!["x".into(), "a".into()]));
    assert!(!texts::shares(&list, &vec!["x".into()]));
    assert!(texts::covers(&vec!["a".into()], &list));
    assert!(!texts::covers(&list, &vec!["a".into()]));
}

#[test]
fn maps_keep_their_keys_in_order() {
    let mut map: OrderedMap<u64, u8> = OrderedMap::new();
    for (key, value) in [(5, 1), (2, 2), (9, 3), (5, 4)] {
        map.insert(key, value);
    }
    let keys: Vec<u64> = (0..map.len()).map(|i| map.key_at(i)).collect();
    assert_eq!(keys, vec![2, 5, 9]);
    assert_eq!(map.get(5), Some(&4));
    assert_eq!(map.remove(2), Some(2));
    assert_eq!(map.remove(2), None);
    let mut other: OrderedMap<u64, u8> = OrderedMap::new();
    other.insert(9, 8);
    other.insert(1, 7);
    map.absorb(other);
    let pairs: Vec<(u64, u8)> = (0..map.len())
        .map(|i| (map.key_at(i), *map.value_at(i)))
        .collect();
    assert_eq!(pairs, vec![(1, 7), (5, 4), (9, 8)]);
    assert!(holds(&[1, 2], 2) && !holds(&[1, 2], 3));
    assert!(same(&[1, 2], &[1, 2]) && !same(&[1, 2], &[2, 1]));
    assert!(are_identities(&[1, 2]) && !are_identities(&[1, 1]) && !are_identities(&[0]));
}
