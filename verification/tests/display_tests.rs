use clonalg::utils::{ToCharIndex, ToDisplayPath};

#[test]
fn char_index_maps_small_indices_to_letters() {
    assert_eq!(0usize.to_char_index(), 'A');
    assert_eq!(1usize.to_char_index(), 'B');
    assert_eq!(25usize.to_char_index(), 'Z');
}

#[test]
fn display_path_brackets_and_separates() {
    let tour: Vec<usize> = vec![0, 2, 1];
    assert_eq!(tour.to_display_path(), "[A, C, B]");
}

#[test]
fn display_path_single_element() {
    let tour: Vec<usize> = vec![3];
    assert_eq!(tour.to_display_path(), "[D]");
}
