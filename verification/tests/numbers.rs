use fatpdf::locator::{join_numbers, secondary_locator};
use fatpdf::numbers::ExerciseNumberSet;

fn set(numbers: &[i32]) -> ExerciseNumberSet {
    let mut s = ExerciseNumberSet::new();
    for n in numbers {
        s.insert(*n);
    }
    s
}

#[test]
fn set_keeps_first_occurrences() {
    let mut s = ExerciseNumberSet::new();
    assert!(s.is_empty());
    assert!(s.insert(12));
    assert!(s.insert(7));
    assert!(!s.insert(12));
    assert!(s.insert(-1));
    assert_eq!(s.len(), 3);
    assert!(!s.is_empty());
    assert_eq!(s.to_vec(), vec![12, 7, -1]);
    assert_eq!(s.get(0), Some(12));
    assert_eq!(s.get(2), Some(-1));
    assert_eq!(s.get(3), None);
    assert!(s.contains(7));
    assert!(!s.contains(8));
}

#[test]
fn numbers_are_joined_by_commas() {
    assert_eq!(join_numbers(&set(&[])), "");
    assert_eq!(join_numbers(&set(&[5])), "5");
    assert_eq!(join_numbers(&set(&[12, 7])), "12,7");
    assert_eq!(join_numbers(&set(&[1, -2, 30, 1])), "1,-2,30");
}

#[test]
fn locator_of_a_set() {
    assert_eq!(secondary_locator(&set(&[])), None);
    assert_eq!(secondary_locator(&set(&[5])), Some("https://ccinp.mpsi1.fr/5.pdf".to_string()));
    assert_eq!(
        secondary_locator(&set(&[12, 7, 12, 40])),
        Some("https://ccinp.mpsi1.fr/12,7,40.pdf".to_string())
    );
}
