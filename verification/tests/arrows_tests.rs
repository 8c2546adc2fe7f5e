use arrows::cycle::{render_cycle, Node};
use arrows::grid::{step, Direction, GraphMeta};
use arrows::parse::ParseError;

fn lines_of(strs: &[&str]) -> Vec<Vec<char>> {
    strs.iter().map(|s| s.chars().collect()).collect()
}

fn load(strs: &[&str]) -> GraphMeta {
    GraphMeta::from_lines(&lines_of(strs)).unwrap()
}

fn rendered(lines: Vec<Vec<char>>) -> Vec<String> {
    lines.into_iter().map(|l| l.into_iter().collect()).collect()
}

#[test]
fn step_stays_in_range() {
    for dim in 1usize..6 {
        for pos in 0..dim {
            assert!(step(pos, 1, dim) < dim);
            assert!(step(pos, -1, dim) < dim);
        }
    }
}

#[test]
fn step_wraps_at_both_ends() {
    assert_eq!(step(0, -1, 5), 4);
    assert_eq!(step(4, 1, 5), 0);
    assert_eq!(step(0, -1, 1), 0);
    assert_eq!(step(0, 1, 1), 0);
}

#[test]
fn step_moves_inside_the_axis() {
    assert_eq!(step(2, 1, 5), 3);
    assert_eq!(step(2, -1, 5), 1);
}

#[test]
fn step_takes_larger_deltas() {
    assert_eq!(step(2, 7, 5), 4);
    assert_eq!(step(1, -3, 4), 2);
}

#[test]
fn glyphs_map_to_directions() {
    assert_eq!(Direction::from_glyph('^'), Some(Direction::Up));
    assert_eq!(Direction::from_glyph('v'), Some(Direction::Down));
    assert_eq!(Direction::from_glyph('<'), Some(Direction::Left));
    assert_eq!(Direction::from_glyph('>'), Some(Direction::Right));
    assert_eq!(Direction::from_glyph('x'), None);
    assert_eq!(Direction::from_glyph(' '), None);
}

#[test]
fn directions_map_to_glyphs() {
    assert_eq!(Direction::Up.to_glyph(), '^');
    assert_eq!(Direction::Down.to_glyph(), 'v');
    assert_eq!(Direction::Left.to_glyph(), '<');
    assert_eq!(Direction::Right.to_glyph(), '>');
}

#[test]
fn parses_the_example_grid() {
    let g = load(&["2 2", "^>", "<v"]);
    assert_eq!(g.width, 2);
    assert_eq!(g.height, 2);
    assert_eq!(
        g.pointers,
        vec![
            vec![Direction::Up, Direction::Right],
            vec![Direction::Left, Direction::Down]
        ]
    );
}

#[test]
fn parses_lines_with_surrounding_whitespace() {
    let g = load(&[" 2  2 ", " ^>\r", "<v "]);
    assert_eq!(g.width, 2);
    assert_eq!(g.height, 2);
}

#[test]
fn non_integer_pieces_of_the_dimension_line_are_passed_over() {
    let g = load(&["2 x 2", "^>", "<v"]);
    assert_eq!(g.width, 2);
    assert_eq!(g.height, 2);
}

#[test]
fn three_numbers_on_the_dimension_line_fail() {
    let r = GraphMeta::from_lines(&lines_of(&["1 2 3", "^", "^"]));
    assert_eq!(r.err(), Some(ParseError::BadDimensions));
}

#[test]
fn one_number_on_the_dimension_line_fails() {
    let r = GraphMeta::from_lines(&lines_of(&["2", "^>", "<v"]));
    assert_eq!(r.err(), Some(ParseError::BadDimensions));
}

#[test]
fn empty_input_fails() {
    let r = GraphMeta::from_lines(&lines_of(&[]));
    assert_eq!(r.err(), Some(ParseError::BadDimensions));
}

#[test]
fn an_unrecognized_glyph_fails() {
    let r = GraphMeta::from_lines(&lines_of(&["2 2", "^x", "<v"]));
    assert_eq!(r.err(), Some(ParseError::BadGlyph));
}

#[test]
fn a_bad_glyph_is_reported_before_a_bad_width() {
    let r = GraphMeta::from_lines(&lines_of(&["2 2", "^>x", "<v"]));
    assert_eq!(r.err(), Some(ParseError::BadGlyph));
}

#[test]
fn a_wrong_line_width_fails() {
    let r = GraphMeta::from_lines(&lines_of(&["2 2", "^>v", "<v"]));
    assert_eq!(r.err(), Some(ParseError::BadLineWidth));
}

#[test]
fn a_wrong_line_count_fails() {
    let r = GraphMeta::from_lines(&lines_of(&["2 2", "^>"]));
    assert_eq!(r.err(), Some(ParseError::BadLineCount));
}

#[test]
fn traces_the_example_cycle() {
    let g = load(&["2 2", "^>", "<v"]);
    let c = g.get_cycle_from(0, 0);
    let expected = vec![
        Node { x: 0, y: 0, pointer: Direction::Up },
        Node { x: 0, y: 1, pointer: Direction::Left },
        Node { x: 1, y: 1, pointer: Direction::Down },
        Node { x: 1, y: 0, pointer: Direction::Right },
    ];
    assert_eq!(c, expected);
}

#[test]
fn the_returned_cycle_is_closed_and_distinct() {
    let g = load(&["2 2", "^>", "<v"]);
    for x in 0..2 {
        for y in 0..2 {
            let c = g.get_cycle_from(x, y);
            assert!(!c.is_empty());
            assert!(c.len() <= g.width * g.height);
            let last = c.last().unwrap();
            let next = g.neighbor_of(last.x, last.y);
            assert_eq!(next, (c[0].x, c[0].y));
            for i in 0..c.len() {
                for j in i + 1..c.len() {
                    assert!((c[i].x, c[i].y) != (c[j].x, c[j].y));
                }
            }
        }
    }
}

#[test]
fn a_prelude_is_trimmed_off() {
    let g = load(&["2 1", ">^"]);
    let c = g.get_cycle_from(0, 0);
    assert_eq!(c, vec![Node { x: 1, y: 0, pointer: Direction::Up }]);
}

#[test]
fn a_self_loop_gives_a_cycle_of_length_one() {
    let g = load(&["1 1", "^"]);
    let c = g.get_max_cycle();
    assert_eq!(c, vec![Node { x: 0, y: 0, pointer: Direction::Up }]);
}

#[test]
fn all_arrows_into_a_self_loop_report_length_one() {
    let g = load(&["2 1", ">^"]);
    let c = g.get_max_cycle();
    assert_eq!(c.len(), 1);
    assert_eq!(c, vec![Node { x: 1, y: 0, pointer: Direction::Up }]);
}

#[test]
fn the_example_grid_has_a_full_cycle() {
    let g = load(&["2 2", "^>", "<v"]);
    let c = g.get_max_cycle();
    assert_eq!(c.len(), 4);
    assert_eq!(c[0], Node { x: 0, y: 0, pointer: Direction::Up });
}

#[test]
fn a_longer_cycle_beats_an_earlier_shorter_one() {
    let g = load(&["3 1", "v><"]);
    let c = g.get_max_cycle();
    assert_eq!(c.len(), 2);
    assert_eq!((c[0].x, c[0].y), (1, 0));
}

#[test]
fn ties_favor_the_smaller_x() {
    let g = load(&["4 1", "><><"]);
    let c = g.get_max_cycle();
    assert_eq!(c.len(), 2);
    assert_eq!((c[0].x, c[0].y), (0, 0));
    assert_eq!((c[1].x, c[1].y), (1, 0));
}

#[test]
fn ties_favor_the_smaller_y_at_equal_x() {
    let g = load(&["2 2", "vv", "^^"]);
    let c = g.get_max_cycle();
    assert_eq!(c.len(), 2);
    assert_eq!(c[0], Node { x: 0, y: 0, pointer: Direction::Down });
    assert_eq!(c[1], Node { x: 0, y: 1, pointer: Direction::Up });
}

#[test]
fn a_degenerate_grid_yields_an_empty_cycle() {
    let g = load(&["2 0"]);
    assert_eq!(g.width, 2);
    assert_eq!(g.height, 0);
    let c = g.get_max_cycle();
    assert!(c.is_empty());
}

#[test]
fn renders_the_full_cycle() {
    let g = load(&["2 2", "^>", "<v"]);
    let c = g.get_max_cycle();
    assert_eq!(rendered(render_cycle(&c, &g)), vec!["^>", "<v"]);
}

#[test]
fn renders_blanks_outside_the_cycle() {
    let g = load(&["2 1", ">^"]);
    let c = g.get_max_cycle();
    assert_eq!(rendered(render_cycle(&c, &g)), vec![" ^"]);
}

#[test]
fn neighbor_of_wraps_around_the_torus() {
    let g = load(&["2 2", "^>", "<v"]);
    assert_eq!(g.neighbor_of(0, 0), (0, 1));
    assert_eq!(g.neighbor_of(0, 1), (1, 1));
    assert_eq!(g.neighbor_of(1, 1), (1, 0));
    assert_eq!(g.neighbor_of(1, 0), (0, 0));
}
