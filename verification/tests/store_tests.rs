use kvstore::KvStore;

fn setup() -> KvStore {
    KvStore::new()
}

fn setup_with_data() -> KvStore {
    let mut store = KvStore::new();
    store.set("cat", "meow");
    store.set("dog", "bark");
    store.set("horse", "neigh");
    store
}

#[test]
fn test_store_set() {
    let mut store = setup();
    store.set("cat", "meow");
    store.set("dog", "bark");
    store.set("horse", "neigh");

    assert_eq!(store.len(), 3);
}

#[test]
fn test_store_set_with_existing_key() {
    let mut store = setup();
    store.set("dog", "bark");
    store.set("dog", "woof");
    let no_value = store.set("seal", "yelp");

    assert_eq!(store.get("dog"), Some("woof".to_owned()));
    assert_eq!(None, no_value)
}

#[test]
fn test_store_get() {
    let store = setup_with_data();
    let val = store.get("cat");
    let val_2 = store.get("dog");
    let val_3 = store.get("rabbit");

    assert_eq!(Some("meow".to_owned()), val);
    assert_eq!(Some("bark".to_owned()), val_2);
    assert_eq!(None, val_3);
}

#[test]
fn test_store_remove() {
    let mut store = setup_with_data();
    store.remove("cat");
    store.remove("dog");
    assert_eq!(1, store.len());
}

#[test]
fn test_store_remove_with_wrong_key() {
    let mut store = setup_with_data();
    store.remove("cat");
    let removed_value = store.remove("fish");

    assert_eq!(2, store.len());
    assert_eq!(None, removed_value)
}

#[test]
fn test_store_iter() {
    let store = setup_with_data();
    let mut iter = store.iter();
    iter.next();
    iter.next();
    iter.next();
    assert_eq!(iter.index, 3)
}

#[test]
fn test_store_clone_and_eq_trait() {
    let store = setup_with_data();
    let new_store = store.clone();

    assert_eq!(store, new_store);
    assert_eq!(store.len(), new_store.len())
}

#[test]
fn set_then_get_on_empty_store() {
    let mut store = setup();
    assert_eq!(None, store.set("lark", "trill"));
    assert_eq!(Some("trill".to_owned()), store.get("lark"));
}

#[test]
fn set_overwrites_and_returns_previous() {
    let mut store = setup();
    assert_eq!(None, store.set("owl", "hoot"));
    assert_eq!(Some("hoot".to_owned()), store.set("owl", "screech"));
    assert_eq!(Some("screech".to_owned()), store.get("owl"));
    assert_eq!(1, store.len());
}

#[test]
fn get_of_absent_key_finds_nothing_and_changes_nothing() {
    let store = setup_with_data();
    assert_eq!(None, store.get("wolf"));
    assert_eq!(3, store.len());
    assert_eq!(Some("meow".to_owned()), store.get("cat"));
}

#[test]
fn remove_of_present_key_returns_value_then_get_finds_nothing() {
    let mut store = setup_with_data();
    assert_eq!(Some("bark".to_owned()), store.remove("dog"));
    assert_eq!(None, store.get("dog"));
    assert_eq!(2, store.len());
}

#[test]
fn remove_of_absent_key_keeps_size() {
    let mut store = setup_with_data();
    assert_eq!(None, store.remove("heron"));
    assert_eq!(3, store.len());
}

#[test]
fn remove_twice_yields_value_then_nothing() {
    let mut store = setup_with_data();
    assert_eq!(Some("neigh".to_owned()), store.remove("horse"));
    assert_eq!(None, store.remove("horse"));
    assert_eq!(2, store.len());
}

#[test]
fn enumerator_exhausts_after_store_size_steps() {
    let store = setup_with_data();
    let mut iter = store.iter();
    assert!(iter.next().is_some());
    assert!(iter.next().is_some());
    assert!(iter.next().is_some());
    assert_eq!(None, iter.next());
    assert_eq!(None, iter.next());
    assert_eq!(None, iter.next());
}

#[test]
fn enumerator_formats_every_entry() {
    let store = setup_with_data();
    let mut iter = store.iter();
    let mut lines = Vec::new();
    while let Some(line) = iter.next() {
        lines.push(line);
    }
    lines.sort();
    let mut expected = vec![
        "k: cat, v: meow".to_owned(),
        "k: dog, v: bark".to_owned(),
        "k: horse, v: neigh".to_owned(),
    ];
    expected.sort();
    assert_eq!(expected, lines);
}

#[test]
fn enumerator_snapshots_and_ignores_later_mutation() {
    let mut store = setup_with_data();
    let mut iter = store.iter();
    store.remove("cat");
    store.remove("dog");
    store.remove("horse");
    let mut count: usize = 0;
    while iter.next().is_some() {
        count += 1;
    }
    assert_eq!(3, count);
    assert_eq!(0, store.len());
}

#[test]
fn enumerator_of_empty_store_is_exhausted_at_once() {
    let store = setup();
    let mut iter = store.iter();
    assert_eq!(None, iter.next());
    assert_eq!(0, iter.index);
}

#[test]
fn clone_is_equal_and_independent() {
    let store = setup_with_data();
    let mut copy = store.clone();
    assert!(store == copy);
    copy.set("cat", "hiss");
    assert!(store != copy);
    assert_eq!(Some("meow".to_owned()), store.get("cat"));
    assert_eq!(Some("hiss".to_owned()), copy.get("cat"));
}

#[test]
fn equality_ignores_insertion_order() {
    let mut first = setup();
    first.set("cat", "meow");
    first.set("dog", "bark");
    let mut second = setup();
    second.set("dog", "bark");
    second.set("cat", "meow");
    assert!(first == second);
}

#[test]
fn equality_tells_values_and_keys_apart() {
    let mut first = setup();
    first.set("cat", "meow");
    let mut second = setup();
    second.set("cat", "purr");
    assert!(first != second);

    let mut third = setup();
    third.set("dog", "meow");
    assert!(first != third);

    let empty = setup();
    assert!(first != empty);
    assert!(empty == setup());
}

#[test]
fn empty_store_has_nothing() {
    let mut store = setup();
    assert_eq!(0, store.len());
    assert_eq!(None, store.get("cat"));
    assert_eq!(None, store.remove("cat"));
    assert_eq!(0, store.len());
}

#[test]
fn fixed_sequence_of_operations() {
    let mut store = setup();
    assert_eq!(None, store.set("cat", "meow"));
    assert_eq!(None, store.set("dog", "bark"));
    assert_eq!(None, store.set("horse", "neigh"));
    assert_eq!(Some("bark".to_owned()), store.get("dog"));
    assert_eq!(Some("meow".to_owned()), store.get("cat"));
    assert_eq!(Some("neigh".to_owned()), store.remove("horse"));
    assert_eq!(None, store.get("horse"));
}
