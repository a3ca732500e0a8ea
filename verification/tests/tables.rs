use word_frequency::table::Table;
use word_frequency::vocabulary::Vocabulary;

fn chars(text: &str) -> Vec<char> {
    text.chars().collect()
}

fn entries(table: &Table<Vec<char>>) -> Vec<(String, u64)> {
    let mut out = Vec::new();
    let mut i = 0;
    while i < table.len() {
        out.push((table.key_at(i).iter().collect::<String>(), table.count_at(i)));
        i += 1;
    }
    out
}

fn table_of(items: &[(&str, u64)]) -> Table<Vec<char>> {
    let mut table = Table::new();
    for (key, count) in items.iter() {
        assert!(table.add(chars(key), *count));
    }
    table
}

fn listed(items: &[(&str, u64)]) -> Vec<(String, u64)> {
    items.iter().map(|(k, c)| (k.to_string(), *c)).collect()
}

#[test]
fn new_table_is_empty() {
    let table: Table<Vec<char>> = Table::new();
    assert_eq!(table.len(), 0);
    assert_eq!(table.get(&chars("cat")), None);
    assert_eq!(table.find(&chars("cat")), (0, false));
}

#[test]
fn add_keeps_the_keys_in_order() {
    let table = table_of(&[("the", 1), ("cat", 2), ("sat", 3), ("<unk>", 4), ("mat", 5), ("a", 6)]);
    assert_eq!(
        entries(&table),
        listed(&[("<unk>", 4), ("a", 6), ("cat", 2), ("mat", 5), ("sat", 3), ("the", 1)])
    );
}

#[test]
fn add_sums_the_counts_of_a_key() {
    let mut table = table_of(&[("cat", 2), ("the", 1)]);
    assert!(table.add(chars("cat"), 40));
    assert!(table.add(chars("cat"), 0));
    assert_eq!(table.get(&chars("cat")), Some(42));
    assert_eq!(table.get(&chars("the")), Some(1));
    assert_eq!(table.get(&chars("ca")), None);
    assert_eq!(table.len(), 2);
}

#[test]
fn add_of_zero_makes_an_entry() {
    let mut table: Table<Vec<char>> = Table::new();
    assert!(table.add(chars("cat"), 0));
    assert_eq!(table.get(&chars("cat")), Some(0));
    assert_eq!(table.len(), 1);
}

#[test]
fn add_refuses_a_count_that_does_not_fit() {
    let mut table = table_of(&[("cat", u64::MAX - 1), ("the", 7)]);
    assert!(!table.add(chars("cat"), 2));
    assert_eq!(entries(&table), listed(&[("cat", u64::MAX - 1), ("the", 7)]));
    assert!(table.add(chars("cat"), 1));
    assert_eq!(table.get(&chars("cat")), Some(u64::MAX));
    assert!(!table.add(chars("cat"), 1));
}

#[test]
fn find_gives_the_place_of_a_key() {
    let table = table_of(&[("b", 1), ("d", 1), ("f", 1)]);
    assert_eq!(table.find(&chars("a")), (0, false));
    assert_eq!(table.find(&chars("b")), (0, true));
    assert_eq!(table.find(&chars("c")), (1, false));
    assert_eq!(table.find(&chars("d")), (1, true));
    assert_eq!(table.find(&chars("e")), (2, false));
    assert_eq!(table.find(&chars("f")), (2, true));
    assert_eq!(table.find(&chars("g")), (3, false));
}

#[test]
fn merge_adds_key_by_key() {
    let a = table_of(&[("cat", 2), ("the", 5), ("zoo", 0)]);
    let b = table_of(&[("<unk>", 9), ("cat", 3), ("mat", 1)]);
    let merged = a.merge(&b).unwrap();
    let expected = listed(&[("<unk>", 9), ("cat", 5), ("mat", 1), ("the", 5), ("zoo", 0)]);
    assert_eq!(entries(&merged), expected);
    assert_eq!(entries(&b.merge(&a).unwrap()), expected);
}

#[test]
fn merge_with_the_empty_table_changes_nothing() {
    let a = table_of(&[("cat", 2), ("the", 5)]);
    let none: Table<Vec<char>> = Table::new();
    assert_eq!(entries(&a.merge(&none).unwrap()), entries(&a));
    assert_eq!(entries(&none.merge(&a).unwrap()), entries(&a));
    assert_eq!(none.merge(&none).unwrap().len(), 0);
}

#[test]
fn merge_refuses_a_sum_that_does_not_fit() {
    let a = table_of(&[("cat", u64::MAX), ("the", 5)]);
    let b = table_of(&[("cat", 1)]);
    assert!(a.merge(&b).is_none());
    assert!(b.merge(&a).is_none());
    let c = table_of(&[("cat", 0), ("the", u64::MAX - 5)]);
    assert_eq!(
        entries(&a.merge(&c).unwrap()),
        listed(&[("cat", u64::MAX), ("the", u64::MAX)])
    );
}

#[test]
fn merge_of_many_keys_is_in_order() {
    let mut a: Table<Vec<char>> = Table::new();
    let mut b: Table<Vec<char>> = Table::new();
    let mut n: u64 = 0;
    while n < 200 {
        let key = chars(&format!("w{:03}", (n * 37) % 200));
        if n % 3 != 0 {
            assert!(a.add(key.clone(), n));
        }
        if n % 2 == 0 {
            assert!(b.add(key, 1));
        }
        n += 1;
    }
    let merged = a.merge(&b).unwrap();
    let found = entries(&merged);
    let mut sorted = found.clone();
    sorted.sort();
    assert_eq!(found, sorted);
    for (key, count) in found.iter() {
        let k = chars(key);
        assert_eq!(*count, a.get(&k).unwrap_or(0) + b.get(&k).unwrap_or(0));
    }
    let mut keys = 0;
    let mut m: u64 = 0;
    while m < 200 {
        if m % 3 != 0 || m % 2 == 0 {
            keys += 1;
        }
        m += 1;
    }
    assert_eq!(found.len(), keys);
}

#[test]
fn vocabulary_holds_what_was_put_in() {
    let mut vocabulary = Vocabulary::new();
    assert!(!vocabulary.contains_str("cat"));
    vocabulary.insert_str("cat");
    vocabulary.insert(chars("the"));
    vocabulary.insert_str("cat");
    assert!(vocabulary.contains_str("cat"));
    assert!(vocabulary.contains(&chars("the")));
    assert!(!vocabulary.contains_str("Cat"));
    assert!(!vocabulary.contains_str("ca"));
    assert!(!vocabulary.contains_str(""));
}

#[test]
fn accumulator_adds_tables_up() {
    let mut sum: word_frequency::accumulator::Accumulator<Vec<char>> =
        word_frequency::accumulator::Accumulator::new();
    let mut expected: std::collections::BTreeMap<String, u64> = std::collections::BTreeMap::new();
    let mut n: u64 = 0;
    while n < 500 {
        let mut table: Table<Vec<char>> = Table::new();
        let mut k: u64 = 0;
        while k < 1 + n % 7 {
            let key = format!("w{}", (n * 31 + k * 17) % 97);
            assert!(table.add(chars(&key), k + 1));
            *expected.entry(key).or_insert(0) += k + 1;
            k += 1;
        }
        assert!(sum.absorb(table));
        n += 1;
    }
    let total = sum.finish().unwrap();
    let listed: Vec<(String, u64)> = expected.into_iter().collect();
    assert_eq!(entries(&total), listed);
}

#[test]
fn accumulator_of_nothing_is_empty() {
    let sum: word_frequency::accumulator::Accumulator<Vec<char>> =
        word_frequency::accumulator::Accumulator::new();
    assert_eq!(sum.finish().unwrap().len(), 0);
}

#[test]
fn accumulator_reports_a_sum_that_does_not_fit() {
    let mut sum: word_frequency::accumulator::Accumulator<Vec<char>> =
        word_frequency::accumulator::Accumulator::new();
    assert!(sum.absorb(table_of(&[("cat", u64::MAX), ("a", 1), ("b", 1), ("c", 1), ("d", 1)])));
    let fine = sum.absorb(table_of(&[("cat", 1)]));
    assert!(!fine || sum.finish().is_none());
}
