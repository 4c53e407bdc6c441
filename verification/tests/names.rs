use sudoku_dlx::names::{col_num_to_name, row_num_to_coords, row_num_to_name};

#[test]
fn coords_of_first_and_last_candidate() {
    assert_eq!(row_num_to_coords(0), (0, 0, 1));
    assert_eq!(row_num_to_coords(728), (8, 8, 9));
    assert_eq!(row_num_to_coords(80), (0, 8, 9));
    assert_eq!(row_num_to_coords(81), (1, 0, 1));
}

#[test]
fn row_names() {
    assert_eq!(row_num_to_name(0), "R1C1#1");
    assert_eq!(row_num_to_name(728), "R9C9#9");
    assert_eq!(row_num_to_name(100), "R2C3#2");
}

#[test]
fn col_names_cover_all_four_constraint_families() {
    assert_eq!(col_num_to_name(0), "R1C1");
    assert_eq!(col_num_to_name(80), "R9C9");
    assert_eq!(col_num_to_name(81), "R1#1");
    assert_eq!(col_num_to_name(161), "R9#9");
    assert_eq!(col_num_to_name(162), "C1#1");
    assert_eq!(col_num_to_name(242), "C9#9");
    assert_eq!(col_num_to_name(243), "B11#1");
    assert_eq!(col_num_to_name(323), "B33#9");
}
