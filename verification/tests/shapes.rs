use lifeview::coloration::gradient_index;
use lifeview::compressed::{decode_cell_char, decode_compressed};
use lifeview::rule::StateType;
use lifeview::shapes::{disc_positions, grid_sites, ring_positions, select_shape, Site};
use lifeview::vector::IVec2;

#[test]
fn decode_cell_char_levels() {
    assert_eq!(decode_cell_char('0'), 0);
    assert_eq!(decode_cell_char('.'), 0);
    assert_eq!(decode_cell_char('×'), 0);
    assert_eq!(decode_cell_char('A'), 0);
    assert_eq!(decode_cell_char('\u{80}'), 0);
    assert_eq!(decode_cell_char('\u{81}'), 1);
    assert_eq!(decode_cell_char('À'), 64);
    assert_eq!(decode_cell_char('\u{FE}'), 126);
    assert_eq!(decode_cell_char('\u{FF}'), 127);
    assert_eq!(decode_cell_char('\u{2603}'), 127);
}

#[test]
fn decode_two_rows_centred() {
    let g = decode_compressed("A.\u{90}\u{A0}/B.\u{FF}");
    assert_eq!(g, vec![vec![16, 32], vec![127, 0]]);
}

#[test]
fn decode_continuation_joins_with_gap() {
    assert_eq!(decode_compressed("A.À/À"), vec![vec![64, 0, 64]]);
    assert_eq!(decode_compressed("A.À/.Á"), vec![vec![64, 0, 65]]);
}

#[test]
fn decode_missing_rows_are_empty() {
    assert_eq!(decode_compressed("A.À/C.À"), vec![vec![64], vec![0], vec![64]]);
}

#[test]
fn decode_rows_sorted_by_ordinal() {
    assert_eq!(decode_compressed("B.À/A.ÁÁÁ"), vec![vec![65, 65, 65], vec![0, 64, 0]]);
}

#[test]
fn decode_empty_and_separators_only() {
    assert_eq!(decode_compressed(""), vec![Vec::<u8>::new()]);
    assert_eq!(decode_compressed("//"), vec![Vec::<u8>::new()]);
}

#[test]
fn decode_label_ordinal_truncated_to_16_bits() {
    assert_eq!(decode_compressed("\u{10041}.À/A.Á"), vec![vec![64, 0, 65]]);
}

#[test]
fn decode_gap_character_is_empty() {
    assert_eq!(decode_compressed("A.À×0.À"), vec![vec![64, 0, 0, 0, 64]]);
}

#[test]
fn disc_positions_small() {
    assert_eq!(disc_positions(0), vec![IVec2::new(0, 0)]);
    assert_eq!(
        disc_positions(1),
        vec![IVec2::new(-1, 0), IVec2::new(0, -1), IVec2::new(0, 0), IVec2::new(0, 1), IVec2::new(1, 0)]
    );
    assert_eq!(disc_positions(2).len(), 13);
    assert!(disc_positions(-1).is_empty());
}

#[test]
fn ring_positions_small() {
    let r = ring_positions(2, 2);
    assert_eq!(
        r,
        vec![IVec2::new(-2, 0), IVec2::new(0, -2), IVec2::new(0, 2), IVec2::new(2, 0)]
    );
    assert_eq!(ring_positions(-3, 1), disc_positions(1));
    assert!(ring_positions(3, 2).is_empty());
    assert_eq!(ring_positions(2, 7).len(), 149 - 9);
}

#[test]
fn grid_sites_skip_empty_and_flip_rows() {
    let mask = vec![vec![true, false, false], vec![false, false, true]];
    let s = grid_sites(&mask);
    assert_eq!(
        s,
        vec![
            Site { row: 0, col: 0, pos: IVec2::new(-1, 0) },
            Site { row: 1, col: 2, pos: IVec2::new(1, -1) },
        ]
    );
}

#[test]
fn grid_sites_ragged_rows_use_first_width() {
    let mask = vec![vec![true], vec![true, true, true, true]];
    let s = grid_sites(&mask);
    let pos: Vec<IVec2> = s.iter().map(|x| x.pos).collect();
    assert_eq!(pos, vec![IVec2::new(0, 0), IVec2::new(0, -1), IVec2::new(1, -1), IVec2::new(2, -1), IVec2::new(3, -1)]);
}

#[test]
fn select_shape_last_match_or_first() {
    let names = vec!["Orbium".to_string(), "Aquarium".to_string(), "Orbium".to_string()];
    assert_eq!(select_shape(&names, &"Orbium".to_string()), 2);
    assert_eq!(select_shape(&names, &"Aquarium".to_string()), 1);
    assert_eq!(select_shape(&names, &"Fish".to_string()), 0);
}

#[test]
fn state_type_values() {
    let s = StateType::CONTINUOUS;
    assert_eq!(s, StateType::CONTINUOUS);
    assert_ne!(s, StateType::DISCRETE);
}

#[test]
fn gradient_index_first_match_or_zero() {
    let names: Vec<String> = ["Viridis", "Plasma", "Inferno", "Plasma"].iter().map(|s| s.to_string()).collect();
    assert_eq!(gradient_index(&names, &"Plasma".to_string()), 1);
    assert_eq!(gradient_index(&names, &"Inferno".to_string()), 2);
    assert_eq!(gradient_index(&names, &"Cividis".to_string()), 0);
    assert_eq!(gradient_index(&Vec::new(), &"Viridis".to_string()), 0);
}
