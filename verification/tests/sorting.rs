use schoenerd::{Ratio, SchoenerIndexes, SortDirection};

fn ratio(numerator: u128, denominator: u128) -> Ratio {
    Ratio::new(numerator, denominator)
}

fn undefined() -> Ratio {
    Ratio::undefined()
}

/// A result set whose entries are named after their place.
fn result_set(names: &[String], values: &[Ratio]) -> SchoenerIndexes<'static> {
    let mut indexes = SchoenerIndexes::with_capacity(values.len());
    for (name, value) in names.iter().zip(values) {
        let name: &'static str = Box::leak(name.clone().into_boxed_str());
        indexes.add_index(name, "x", *value);
    }
    indexes
}

fn places(count: usize) -> Vec<String> {
    (0..count).map(|k| k.to_string()).collect()
}

fn order(indexes: &SchoenerIndexes) -> Vec<usize> {
    (0..indexes.len())
        .map(|k| indexes.get(k).unwrap().first_species().parse().unwrap())
        .collect()
}

fn sorted(values: &[Ratio], directions: &[SortDirection]) -> Vec<usize> {
    let mut indexes = result_set(&places(values.len()), values);
    for direction in directions {
        indexes.sort(*direction);
    }
    order(&indexes)
}

#[test]
fn entries_are_added_at_the_end() {
    let mut indexes = SchoenerIndexes::with_capacity(0);
    assert_eq!(indexes.len(), 0);
    assert!(indexes.get(0).is_none());
    indexes.add_index("A", "B", ratio(1, 2));
    indexes.add_index("A", "C", undefined());
    assert_eq!(indexes.len(), 2);
    let first = indexes.get(0).unwrap();
    assert_eq!((first.first_species(), first.second_species()), ("A", "B"));
    assert_eq!((first.index().numerator, first.index().denominator), (1, 2));
    let second = indexes.get(1).unwrap();
    assert_eq!((second.first_species(), second.second_species()), ("A", "C"));
    assert!(second.index().is_undefined());
}

#[test]
fn ascending_puts_the_smallest_first() {
    let values = [ratio(1, 2), ratio(1, 3), ratio(1, 1), ratio(0, 5), ratio(2, 3)];
    assert_eq!(sorted(&values, &[SortDirection::Ascending]), vec![3, 1, 0, 4, 2]);
}

#[test]
fn descending_puts_the_largest_first() {
    let values = [ratio(1, 2), ratio(1, 3), ratio(1, 1), ratio(0, 5), ratio(2, 3)];
    assert_eq!(sorted(&values, &[SortDirection::Descending]), vec![2, 4, 0, 1, 3]);
}

#[test]
fn undefined_comes_after_every_number() {
    let values = [undefined(), ratio(1, 1), ratio(0, 1), undefined(), ratio(1, 2)];
    assert_eq!(sorted(&values, &[SortDirection::Ascending]), vec![2, 4, 1, 0, 3]);
    assert_eq!(sorted(&values, &[SortDirection::Descending]), vec![0, 3, 1, 4, 2]);
}

#[test]
fn ties_keep_their_order() {
    let values = [ratio(1, 2), ratio(1, 4), ratio(2, 4), ratio(3, 12), ratio(5, 10)];
    assert_eq!(sorted(&values, &[SortDirection::Ascending]), vec![1, 3, 0, 2, 4]);
    assert_eq!(sorted(&values, &[SortDirection::Descending]), vec![0, 2, 4, 1, 3]);
}

#[test]
fn two_ties_never_swap() {
    let values = [ratio(1, 2), ratio(1, 2)];
    assert_eq!(sorted(&values, &[SortDirection::Ascending]), vec![0, 1]);
    assert_eq!(sorted(&values, &[SortDirection::Descending]), vec![0, 1]);
    assert_eq!(
        sorted(&values, &[SortDirection::Ascending, SortDirection::Descending]),
        vec![0, 1]
    );
    assert_eq!(
        sorted(&values, &[SortDirection::Descending, SortDirection::Ascending]),
        vec![0, 1]
    );
}

#[test]
fn sorting_there_and_back_restores_a_sorted_set() {
    let values = [ratio(0, 1), ratio(1, 4), ratio(2, 8), ratio(1, 2), ratio(1, 2), undefined(), undefined()];
    assert_eq!(sorted(&values, &[SortDirection::Ascending]), vec![0, 1, 2, 3, 4, 5, 6]);
    assert_eq!(sorted(&values, &[SortDirection::Descending]), vec![5, 6, 3, 4, 1, 2, 0]);
    assert_eq!(
        sorted(&values, &[SortDirection::Descending, SortDirection::Ascending]),
        vec![0, 1, 2, 3, 4, 5, 6]
    );
}

#[test]
fn sorting_again_changes_nothing() {
    let values = [ratio(3, 4), undefined(), ratio(1, 4), ratio(6, 8), ratio(0, 1)];
    let once = sorted(&values, &[SortDirection::Ascending]);
    let twice = sorted(&values, &[SortDirection::Ascending, SortDirection::Ascending]);
    assert_eq!(once, vec![4, 2, 0, 3, 1]);
    assert_eq!(once, twice);
}

#[test]
fn an_empty_set_and_a_single_entry_sort() {
    assert_eq!(sorted(&[], &[SortDirection::Ascending]), Vec::<usize>::new());
    assert_eq!(sorted(&[ratio(1, 2)], &[SortDirection::Descending]), vec![0]);
}

#[test]
fn values_are_told_apart_beyond_64_bits() {
    let big = 1u128 << 100;
    let values = [
        ratio(big + 1, 2 * big + 1),
        ratio(big, 2 * big + 1),
        ratio(big + 1, 2 * big + 3),
        ratio(1, 2),
    ];
    // (b + 1)/(2b + 1) > 1/2 > (b + 1)/(2b + 3) > b/(2b + 1)
    assert_eq!(sorted(&values, &[SortDirection::Ascending]), vec![1, 2, 3, 0]);
    assert_eq!(sorted(&values, &[SortDirection::Descending]), vec![0, 3, 2, 1]);
}

#[test]
fn at_most_orders_exact_values() {
    assert!(ratio(1, 3).at_most(&ratio(1, 2)));
    assert!(!ratio(1, 2).at_most(&ratio(1, 3)));
    assert!(ratio(1, 2).at_most(&ratio(2, 4)));
    assert!(ratio(2, 4).at_most(&ratio(1, 2)));
    assert!(ratio(1, 1).at_most(&undefined()));
    assert!(!undefined().at_most(&ratio(1, 1)));
    assert!(undefined().at_most(&undefined()));
    assert!(ratio(u128::MAX - 1, u128::MAX).at_most(&ratio(u128::MAX, u128::MAX)));
    assert!(!ratio(u128::MAX, u128::MAX).at_most(&ratio(u128::MAX - 1, u128::MAX)));
    assert!(ratio(u128::MAX - 2, u128::MAX - 1).at_most(&ratio(u128::MAX - 1, u128::MAX)));
    assert!(!ratio(u128::MAX - 1, u128::MAX).at_most(&ratio(u128::MAX - 2, u128::MAX - 1)));
}

#[test]
fn negative_values_come_before_zero() {
    let minus = |numerator: u128, denominator: u128| Ratio { negative: true, numerator, denominator };
    assert!(minus(1, 2).at_most(&ratio(0, 1)));
    assert!(!ratio(0, 1).at_most(&minus(1, 2)));
    assert!(minus(1, 2).at_most(&minus(1, 3)));
    assert!(!minus(1, 3).at_most(&minus(1, 2)));
    assert!(minus(2, 4).at_most(&minus(1, 2)));
    assert!(minus(1, 2).at_most(&minus(2, 4)));
    assert!(minus(0, 1).at_most(&ratio(0, 5)));
    assert!(ratio(0, 5).at_most(&minus(0, 1)));
    assert!(!ratio(1, 5).at_most(&minus(0, 1)));
    assert!(minus(7, 1).at_most(&undefined()));
    assert!(!undefined().at_most(&minus(7, 1)));
    let values = [ratio(1, 2), minus(1, 2), undefined(), minus(3, 1), ratio(0, 1), minus(6, 2)];
    assert_eq!(sorted(&values, &[SortDirection::Ascending]), vec![3, 5, 1, 4, 0, 2]);
    assert_eq!(sorted(&values, &[SortDirection::Descending]), vec![2, 0, 4, 1, 3, 5]);
}

#[test]
fn a_long_set_sorts_as_a_stable_sort_does() {
    let count = 1000usize;
    let values: Vec<Ratio> = (0..count)
        .map(|k| {
            let x = (k * 7919 + 13) % 17;
            if x == 16 {
                undefined()
            } else {
                ratio(x as u128, 16)
            }
        })
        .collect();
    let key = |k: &usize| {
        let x = (*k * 7919 + 13) % 17;
        x
    };
    let mut ascending: Vec<usize> = (0..count).collect();
    ascending.sort_by(|a, b| key(a).cmp(&key(b)));
    let mut descending: Vec<usize> = (0..count).collect();
    descending.sort_by(|a, b| key(b).cmp(&key(a)));
    assert_eq!(sorted(&values, &[SortDirection::Ascending]), ascending);
    assert_eq!(sorted(&values, &[SortDirection::Descending]), descending);
}
