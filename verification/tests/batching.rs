use terrain_raymarch::batching::split_runs;
use terrain_raymarch::terrain::Change;

fn changes(slots: &[usize]) -> Vec<Change> {
    slots.iter().map(|s| (*s, (0, 0))).collect()
}

#[test]
fn split_runs_groups_consecutive_slots() {
    let runs = split_runs(&changes(&[3, 4, 5, 9, 10, 20]));
    assert_eq!(runs, vec![(0, 3), (3, 2), (5, 1)]);
}

#[test]
fn split_runs_single_and_empty() {
    assert_eq!(split_runs(&changes(&[7])), vec![(0, 1)]);
    assert!(split_runs(&changes(&[])).is_empty());
}

#[test]
fn split_runs_breaks_on_repeats_and_descents() {
    assert_eq!(split_runs(&changes(&[2, 2, 3, 1, 2])), vec![(0, 1), (1, 2), (3, 2)]);
}

#[test]
fn split_runs_accepts_max_slot_last() {
    assert_eq!(
        split_runs(&changes(&[usize::MAX - 1, usize::MAX])),
        vec![(0, 2)]
    );
}
