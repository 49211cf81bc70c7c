//! The sorted-sequence merge: interleaving, tie breaking, and the
//! fail-closed answer on unsorted input.

use streamwatch::merge::merge;
use streamwatch::Item;

#[test]
fn merge_interleaves_two_sorted_sequences() {
    let merged = merge(vec![1i64, 3, 5], vec![2i64, 4, 6]).unwrap();
    assert_eq!(merged, vec![1, 2, 3, 4, 5, 6]);
}

#[test]
fn merge_rejects_an_unsorted_input() {
    assert!(merge(vec![3i64, 1], vec![2i64]).is_none());
}

#[test]
fn merge_rejects_unsorted_second_input() {
    assert!(merge(vec![1i64, 2], vec![5i64, 4]).is_none());
}

#[test]
fn merge_handles_empty_sides() {
    assert_eq!(merge(vec![], vec![1i64, 2]).unwrap(), vec![1, 2]);
    assert_eq!(merge(vec![1i64, 2], vec![]).unwrap(), vec![1, 2]);
    assert_eq!(merge(Vec::<i64>::new(), vec![]).unwrap(), Vec::<i64>::new());
}

#[test]
fn merge_breaks_ties_toward_the_first_input() {
    let a = Item {
        ts: 5,
        content: "\"from-log\"".to_string(),
    };
    let b = Item {
        ts: 5,
        content: "\"from-db\"".to_string(),
    };
    let merged = merge(vec![a], vec![b]).unwrap();
    assert_eq!(merged[0].content, "\"from-log\"");
    assert_eq!(merged[1].content, "\"from-db\"");
}

#[test]
fn merge_splices_log_and_database_timelines() {
    let log: Vec<Item> = [1i64, 4, 6]
        .iter()
        .map(|&t| Item {
            ts: t,
            content: format!("{}", t),
        })
        .collect();
    let db: Vec<Item> = [2i64, 3, 5]
        .iter()
        .map(|&t| Item {
            ts: t,
            content: format!("{}", t),
        })
        .collect();
    let merged = merge(log, db).unwrap();
    let tss: Vec<i64> = merged.iter().map(|i| i.ts).collect();
    assert_eq!(tss, vec![1, 2, 3, 4, 5, 6]);
}
