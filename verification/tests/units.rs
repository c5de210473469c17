use tondeuse::agent::Position;
use tondeuse::agent::Tondeuse;
use tondeuse::driver::get_initial_tondeuse;
use tondeuse::grid::Pelouse;
use tondeuse::orientation::Orientation;

fn lawn(max_x: u8, max_y: u8, occupied: Vec<(u8, u8)>) -> Pelouse {
    Pelouse { max_x, max_y, occupied }
}

fn agent_at(x: u8, y: u8, orientation: Orientation, max_x: u8, max_y: u8) -> Tondeuse {
    Tondeuse {
        order: 0,
        pos: Position { x, y, orientation },
        mouvement: vec![],
        max_x,
        max_y,
    }
}

#[test]
fn turning_left_cycles_through_all_orientations() {
    assert_eq!(Orientation::N.gauche(), Orientation::W);
    assert_eq!(Orientation::W.gauche(), Orientation::S);
    assert_eq!(Orientation::S.gauche(), Orientation::E);
    assert_eq!(Orientation::E.gauche(), Orientation::N);
}

#[test]
fn turning_right_cycles_through_all_orientations() {
    assert_eq!(Orientation::N.droite(), Orientation::E);
    assert_eq!(Orientation::E.droite(), Orientation::S);
    assert_eq!(Orientation::S.droite(), Orientation::W);
    assert_eq!(Orientation::W.droite(), Orientation::N);
}

#[test]
fn four_turns_return_to_the_start() {
    for o in [Orientation::N, Orientation::E, Orientation::S, Orientation::W] {
        assert_eq!(o.gauche().gauche().gauche().gauche(), o);
        assert_eq!(o.droite().droite().droite().droite(), o);
        assert_eq!(o.gauche().droite(), o);
    }
}

#[test]
fn is_free_checks_bounds_and_occupancy() {
    let p = lawn(5, 5, vec![(2, 3)]);
    assert!(p.is_free(0, 0));
    assert!(p.is_free(5, 5));
    assert!(!p.is_free(6, 0));
    assert!(!p.is_free(0, 6));
    assert!(!p.is_free(2, 3));
}

#[test]
fn occupe_then_libere_frees_the_cell() {
    let mut p = lawn(5, 5, vec![]);
    p.occupe(1, 1);
    assert!(!p.is_free(1, 1));
    p.libere(1, 1);
    assert!(p.is_free(1, 1));
}

#[test]
fn libere_removes_every_copy_and_nothing_else() {
    let mut p = lawn(5, 5, vec![(1, 1), (2, 2), (1, 1)]);
    p.libere(1, 1);
    assert_eq!(p.occupied, vec![(2, 2)]);
    p.libere(4, 4);
    assert_eq!(p.occupied, vec![(2, 2)]);
}

#[test]
fn advance_at_the_boundary_is_a_no_op() {
    let mut p = lawn(5, 5, vec![(3, 5)]);
    let mut t = agent_at(3, 5, Orientation::N, 5, 5);
    t.avancer(&mut p);
    assert_eq!(t.pos, Position { x: 3, y: 5, orientation: Orientation::N });
    assert_eq!(p.occupied, vec![(3, 5)]);

    let mut t = agent_at(0, 2, Orientation::W, 5, 5);
    t.avancer(&mut p);
    assert_eq!(t.pos, Position { x: 0, y: 2, orientation: Orientation::W });
}

#[test]
fn advance_onto_an_occupied_cell_is_a_no_op() {
    let mut p = lawn(5, 5, vec![(1, 1), (1, 2)]);
    let mut t = agent_at(1, 1, Orientation::N, 5, 5);
    t.avancer(&mut p);
    assert_eq!(t.pos, Position { x: 1, y: 1, orientation: Orientation::N });
    assert_eq!(p.occupied, vec![(1, 1), (1, 2)]);
}

#[test]
fn advance_moves_and_swaps_the_occupied_cell() {
    let mut p = lawn(5, 5, vec![(1, 1)]);
    let mut t = agent_at(1, 1, Orientation::E, 5, 5);
    t.avancer(&mut p);
    assert_eq!(t.pos, Position { x: 2, y: 1, orientation: Orientation::E });
    assert_eq!(p.occupied, vec![(2, 1)]);
}

#[test]
fn executer_runs_a_whole_program() {
    let mut p = lawn(5, 5, vec![(1, 2)]);
    let mut t = agent_at(1, 2, Orientation::N, 5, 5);
    t.executer(vec!['L', 'F', 'L', 'F', 'L', 'F', 'L', 'F', 'F'], &mut p);
    assert_eq!(t.pos, Position { x: 1, y: 3, orientation: Orientation::N });
    assert_eq!(p.occupied, vec![(1, 3)]);
}

#[test]
fn record_fields_are_parsed() {
    let p = lawn(5, 5, vec![]);
    let t = get_initial_tondeuse("1 2 N", "LF", &p, 7);
    assert_eq!(t.order, 7);
    assert_eq!(t.pos, Position { x: 1, y: 2, orientation: Orientation::N });
    assert_eq!(t.mouvement, vec!['L', 'F']);
    assert_eq!(t.max_x, 5);
    assert_eq!(t.max_y, 5);
}

#[test]
fn orientation_symbols_are_case_insensitive() {
    let p = lawn(5, 5, vec![]);
    assert_eq!(
        get_initial_tondeuse("1 2 e", "", &p, 0).pos.orientation,
        Orientation::E
    );
    assert_eq!(
        get_initial_tondeuse("1 2 s", "", &p, 0).pos.orientation,
        Orientation::S
    );
}

#[test]
fn malformed_orientation_defaults_to_north() {
    let p = lawn(5, 5, vec![]);
    assert_eq!(
        get_initial_tondeuse("1 2 X", "", &p, 0).pos.orientation,
        Orientation::N
    );
    assert_eq!(
        get_initial_tondeuse("1 2 NE", "", &p, 0).pos.orientation,
        Orientation::N
    );
    assert_eq!(
        get_initial_tondeuse("1 2", "", &p, 0).pos.orientation,
        Orientation::N
    );
}

#[test]
fn malformed_coordinates_default_to_zero() {
    let p = lawn(5, 5, vec![]);
    let t = get_initial_tondeuse("x 9 N", "", &p, 0);
    assert_eq!((t.pos.x, t.pos.y), (0, 9));
    let t = get_initial_tondeuse("3 2y N", "", &p, 0);
    assert_eq!((t.pos.x, t.pos.y), (3, 0));
    let t = get_initial_tondeuse("", "", &p, 0);
    assert_eq!((t.pos.x, t.pos.y), (0, 0));
}

#[test]
fn oversized_coordinates_default_to_zero() {
    let p = lawn(255, 255, vec![]);
    let t = get_initial_tondeuse("300 255 N", "", &p, 0);
    assert_eq!((t.pos.x, t.pos.y), (0, 255));
    let t = get_initial_tondeuse("2 99999999999999999999 N", "", &p, 0);
    assert_eq!((t.pos.x, t.pos.y), (2, 0));
}

#[test]
fn extra_separators_are_skipped() {
    let p = lawn(5, 5, vec![]);
    let t = get_initial_tondeuse("  1\t 2   W ", "", &p, 0);
    assert_eq!(t.pos, Position { x: 1, y: 2, orientation: Orientation::W });
}
