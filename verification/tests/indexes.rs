use schoenerd::{Error, Input, InteractionData, Ratio};

fn table(rows: &[&[&str]]) -> Vec<Vec<String>> {
    rows.iter()
        .map(|row| row.iter().map(|cell| cell.to_string()).collect())
        .collect()
}

fn load(rows: &[&[&str]]) -> InteractionData {
    InteractionData::parse(Input::new(table(rows))).unwrap()
}

fn number(ratio: Ratio) -> f64 {
    if ratio.denominator == 0 {
        f64::NAN
    } else if ratio.negative {
        -(ratio.numerator as f64 / ratio.denominator as f64)
    } else {
        ratio.numerator as f64 / ratio.denominator as f64
    }
}

fn minus(numerator: u128, denominator: u128) -> Ratio {
    Ratio { negative: true, numerator, denominator }
}

/// Whether two exact values are one value.
fn same(a: Ratio, b: Ratio) -> bool {
    a.at_most(&b) && b.at_most(&a)
}

fn ratio(numerator: u128, denominator: u128) -> Ratio {
    Ratio::new(numerator, denominator)
}

fn example() -> InteractionData {
    load(&[
        &["", "A", "B", "C"],
        &["Rosa", "2", "0", "4"],
        &["Salvia", "4", "0", "0"],
        &["Thymus", "2", "0", "4"],
    ])
}

/// The indexes of all pairs, each with the names of its pair.
fn pairs(data: &InteractionData) -> Vec<(String, String, Ratio)> {
    let indexes = data.schoener_indexes();
    (0..indexes.len())
        .map(|k| {
            let entry = indexes.get(k).unwrap();
            (entry.first_species().to_string(), entry.second_species().to_string(), entry.index())
        })
        .collect()
}

#[test]
fn end_to_end_example() {
    let mut data = example();
    data.normalize();
    let indexes = data.schoener_indexes();
    assert_eq!(indexes.len(), 3);
    let ab = indexes.get(0).unwrap();
    let ac = indexes.get(1).unwrap();
    let bc = indexes.get(2).unwrap();
    assert_eq!((ab.first_species(), ab.second_species()), ("A", "B"));
    assert_eq!((ac.first_species(), ac.second_species()), ("A", "C"));
    assert_eq!((bc.first_species(), bc.second_species()), ("B", "C"));
    assert!(number(ab.index()).is_nan());
    assert!(ab.index().is_undefined());
    assert_eq!(number(ac.index()), 0.5);
    assert!(same(ac.index(), ratio(1, 2)));
    assert!(number(bc.index()).is_nan());
    assert!(bc.index().is_undefined());
    assert!(indexes.get(3).is_none());
}

#[test]
fn normalizing_divides_by_the_column_sums() {
    let mut data = example();
    assert!(!data.is_normalized());
    data.normalize();
    assert!(data.is_normalized());
    let a: Vec<f64> = (0..3).map(|row| number(data.cell(row, 0).unwrap())).collect();
    let b: Vec<f64> = (0..3).map(|row| number(data.cell(row, 1).unwrap())).collect();
    let c: Vec<f64> = (0..3).map(|row| number(data.cell(row, 2).unwrap())).collect();
    assert_eq!(a, vec![0.25, 0.5, 0.25]);
    assert!(b.iter().all(|x| x.is_nan()));
    assert_eq!(c, vec![0.5, 0.0, 0.5]);
    assert!(same(data.cell(0, 0).unwrap(), ratio(1, 4)));
    assert!(same(data.cell(1, 2).unwrap(), ratio(0, 1)));
}

#[test]
fn rows_are_not_normalized() {
    let mut data = load(&[&["", "A", "B"], &["Rosa", "1", "3"], &["Salvia", "1", "1"]]);
    data.normalize();
    assert!(same(data.cell(0, 0).unwrap(), ratio(1, 2)));
    assert!(same(data.cell(0, 1).unwrap(), ratio(3, 4)));
    assert!(same(data.cell(1, 0).unwrap(), ratio(1, 2)));
    assert!(same(data.cell(1, 1).unwrap(), ratio(1, 4)));
}

#[test]
fn normalizing_twice_changes_nothing() {
    let mut data = load(&[
        &["", "A", "B", "C", "D"],
        &["Rosa", "1", "0", "7", "1"],
        &["Salvia", "2", "0", "11", "0"],
        &["Thymus", "4", "0", "13", "0"],
    ]);
    data.normalize();
    let once: Vec<Ratio> = (0..12).map(|k| data.cell(k / 4, k % 4).unwrap()).collect();
    data.normalize();
    let twice: Vec<Ratio> = (0..12).map(|k| data.cell(k / 4, k % 4).unwrap()).collect();
    for (a, b) in once.iter().zip(twice.iter()) {
        assert_eq!(a.is_undefined(), b.is_undefined());
        assert!(same(*a, *b));
    }
    assert!(same(once[0], ratio(1, 7)));
    assert!(once[1].is_undefined());
    assert!(same(once[6], ratio(11, 31)));
    assert!(same(once[3], ratio(1, 1)));
    assert!(data.is_normalized());
}

#[test]
fn a_matrix_whose_columns_sum_to_one_is_normalized_as_loaded() {
    let mut data = load(&[&["", "A", "B"], &["Rosa", "1", "0"], &["Salvia", "0", "1"]]);
    assert!(data.is_normalized());
    data.normalize();
    assert!(same(data.cell(0, 0).unwrap(), ratio(1, 1)));
    assert!(same(data.cell(0, 1).unwrap(), ratio(0, 1)));
}

#[test]
fn identical_columns_overlap_fully() {
    let mut data = load(&[&["", "A", "B"], &["Rosa", "1", "2"], &["Salvia", "3", "6"], &["Thymus", "0", "0"]]);
    data.normalize();
    let found = pairs(&data);
    assert_eq!(found.len(), 1);
    assert!(same(found[0].2, ratio(1, 1)));
    assert_eq!(number(found[0].2), 1.0);
}

#[test]
fn disjoint_columns_do_not_overlap() {
    let mut data = load(&[&["", "A", "B"], &["Rosa", "5", "0"], &["Salvia", "0", "7"]]);
    data.normalize();
    let found = pairs(&data);
    assert!(same(found[0].2, ratio(0, 1)));
    assert_eq!(number(found[0].2), 0.0);
}

#[test]
fn the_index_is_one_less_half_the_distance() {
    // A = [1/4, 3/4], B = [2/3, 1/3]: distance 5/12 + 5/12, index 1 - 5/12 = 7/12.
    let mut data = load(&[&["", "A", "B"], &["Rosa", "1", "2"], &["Salvia", "3", "1"]]);
    data.normalize();
    let found = pairs(&data);
    assert!(same(found[0].2, ratio(7, 12)));
    assert!(!same(found[0].2, ratio(6, 12)));
}

#[test]
fn there_is_an_index_for_each_pair_in_order() {
    for cols in 2..9usize {
        let header: Vec<String> =
            std::iter::once(String::new()).chain((0..cols).map(|c| format!("S{}", c))).collect();
        let row: Vec<String> =
            std::iter::once("Rosa".to_string()).chain((0..cols).map(|c| (c + 1).to_string())).collect();
        let mut data = InteractionData::parse(Input::new(vec![header, row])).unwrap();
        data.normalize();
        let found = pairs(&data);
        assert_eq!(found.len(), cols * (cols - 1) / 2);
        let mut k = 0;
        for i in 0..cols {
            for j in i + 1..cols {
                assert_eq!(found[k].0, format!("S{}", i));
                assert_eq!(found[k].1, format!("S{}", j));
                k += 1;
            }
        }
    }
}

#[test]
fn every_index_lies_between_zero_and_one() {
    let mut data = load(&[
        &["", "A", "B", "C", "D", "E"],
        &["Rosa", "3", "0", "1", "12", "0"],
        &["Salvia", "0", "9", "1", "1", "0"],
        &["Thymus", "5", "1", "1", "0", "0"],
        &["Viola", "2", "2", "1", "7", "0"],
    ]);
    data.normalize();
    for (_, _, index) in pairs(&data) {
        if !index.is_undefined() {
            assert!(index.numerator <= index.denominator);
            let x = number(index);
            assert!((0.0..=1.0).contains(&x));
        }
    }
}

#[test]
fn reversing_the_columns_keeps_the_index_of_each_pair() {
    let mut forward = load(&[
        &["", "A", "B", "C"],
        &["Rosa", "3", "0", "1"],
        &["Salvia", "0", "9", "1"],
        &["Thymus", "5", "1", "4"],
    ]);
    let mut backward = load(&[
        &["", "C", "B", "A"],
        &["Rosa", "1", "0", "3"],
        &["Salvia", "1", "9", "0"],
        &["Thymus", "4", "1", "5"],
    ]);
    forward.normalize();
    backward.normalize();
    let there = pairs(&forward);
    let back = pairs(&backward);
    assert_eq!(there.len(), back.len());
    for (first, second, index) in &there {
        let twin = back
            .iter()
            .find(|(a, b, _)| (a, b) == (second, first) || (a, b) == (first, second))
            .unwrap();
        assert!(same(*index, twin.2));
    }
}

#[test]
fn large_counts_are_held_exactly() {
    let mut data = load(&[
        &["", "A", "B"],
        &["Rosa", "18446744073709551614", "1"],
        &["Salvia", "1", "18446744073709551614"],
    ]);
    data.normalize();
    let found = pairs(&data);
    // Both columns sum to 2^64 - 1; the overlap is 2 in that many.
    assert!(same(found[0].2, ratio(2, 18446744073709551615)));
    assert!(!same(found[0].2, ratio(2, 18446744073709551614)));
}

#[test]
fn indexes_come_from_the_cells_as_they_are() {
    // Not normalized: the distances are those of the counts themselves.
    let data = load(&[&["", "A", "B", "C"], &["Rosa", "1", "0", "4"], &["Salvia", "0", "1", "1"]]);
    let found = pairs(&data);
    // A and B: distance 1 + 1, index 1 - 1 = 0.
    assert!(same(found[0].2, ratio(0, 1)));
    // A and C: distance 3 + 1, index 1 - 2 = -1.
    assert!(same(found[1].2, minus(1, 1)));
    assert_eq!(number(found[1].2), -1.0);
    // B and C: distance 4 + 0, index 1 - 2 = -1.
    assert!(same(found[2].2, minus(2, 2)));
    assert!(!same(found[2].2, ratio(1, 1)));
}

#[test]
fn half_a_unit_of_distance_is_held_exactly() {
    let data = load(&[&["", "A", "B"], &["Rosa", "1", "0"], &["Salvia", "2", "2"]]);
    let found = pairs(&data);
    // Distance 1 + 0, index 1 - 1/2.
    assert!(same(found[0].2, ratio(1, 2)));
}

#[test]
fn loading_fails_with_the_error_of_the_loader() {
    assert_eq!(
        InteractionData::parse(Input::new(table(&[&["", "A", "B"]]))).unwrap_err(),
        Error::MissingData
    );
}
