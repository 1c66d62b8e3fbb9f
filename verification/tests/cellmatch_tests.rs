use bolivar_core::cellmatch::{ActiveCells, slot_runs, sort_matches};
use bolivar_core::table::{CellId, CellMatch, CharId};

fn m(cell: usize, ch: u32) -> CellMatch {
    CellMatch { cell: CellId::from_index(cell), ch: CharId(ch) }
}

fn keys(matches: &[CellMatch]) -> Vec<(usize, u32)> {
    matches.iter().map(|x| (x.cell.index(), x.ch.0)).collect()
}

#[test]
fn active_cells_swap_the_last_into_a_removed_place() {
    let mut active = ActiveCells::new(5);
    active.add(3);
    active.add(1);
    active.add(4);
    assert_eq!(active.cells(), &vec![3, 1, 4]);
    active.remove(3);
    assert_eq!(active.cells(), &vec![4, 1]);
    assert!(!active.is_active(3));
    assert!(active.is_active(4));
    active.remove(1);
    assert_eq!(active.cells(), &vec![4]);
}

#[test]
fn active_cells_ignore_removing_an_inactive_cell() {
    let mut active = ActiveCells::new(3);
    active.add(2);
    active.remove(0);
    assert_eq!(active.cells(), &vec![2]);
}

#[test]
fn removing_the_cell_just_added_restores_the_set() {
    let mut active = ActiveCells::new(4);
    active.add(0);
    active.add(2);
    let before = active.cells().clone();
    active.add(3);
    active.remove(3);
    assert_eq!(active.cells(), &before);
}

#[test]
fn matches_sort_by_cell_then_character() {
    let mut matches = vec![m(2, 5), m(0, 9), m(2, 1), m(1, 3), m(0, 2)];
    sort_matches(&mut matches);
    assert_eq!(keys(&matches), vec![(0, 2), (0, 9), (1, 3), (2, 1), (2, 5)]);
}

#[test]
fn each_slot_takes_the_run_of_its_cell() {
    let matches = vec![m(0, 2), m(0, 9), m(2, 1), m(2, 5)];
    let slots = vec![Some(CellId::from_index(0)), None, Some(CellId::from_index(1)), Some(CellId::from_index(2))];
    let runs = slot_runs(&slots, &matches);
    assert_eq!(runs, vec![Some((0, 2)), None, Some((2, 2)), Some((2, 4))]);
}
