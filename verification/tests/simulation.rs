use tondeuse::agent::Position;
use tondeuse::agent::Tondeuse;
use tondeuse::driver::executor;
use tondeuse::orientation::Orientation;

#[test]
fn with_original_datas() {
    let input = vec!["5 5", "1 2 N", "LFLFLFLFF", "3 3 E", "FFRFFRFRRF"];
    let reference = vec![
        Tondeuse {
            pos: Position {
                x: 1,
                y: 3,
                orientation: Orientation::N,
            },
            mouvement: vec!['L', 'F', 'L', 'F', 'L', 'F', 'L', 'F', 'F'],
            max_x: 5,
            max_y: 5,
            order: 0,
        },
        Tondeuse {
            pos: Position {
                x: 5,
                y: 1,
                orientation: Orientation::E,
            },
            mouvement: vec!['F', 'F', 'R', 'F', 'F', 'R', 'F', 'R', 'R', 'F'],
            max_x: 5,
            max_y: 5,
            order: 1,
        },
    ];

    let result = executor(input);
    assert_eq!(reference, result);
}

#[test]
fn with_datas1() {
    let input = vec!["5 5", "1 3 N", "LFLFLFLFF", "2 3 E", "FFRFFRFRRF"];
    let reference = vec![
        Tondeuse {
            pos: Position {
                x: 1,
                y: 4,
                orientation: Orientation::N,
            },
            mouvement: vec!['L', 'F', 'L', 'F', 'L', 'F', 'L', 'F', 'F'],
            max_x: 5,
            max_y: 5,
            order: 0,
        },
        Tondeuse {
            pos: Position {
                x: 4,
                y: 1,
                orientation: Orientation::E,
            },
            mouvement: vec!['F', 'F', 'R', 'F', 'F', 'R', 'F', 'R', 'R', 'F'],
            max_x: 5,
            max_y: 5,
            order: 1,
        },
    ];

    let result = executor(input);
    assert_eq!(reference, result);
}

#[test]
fn with_datas2() {
    let input = vec!["5 5", "1 0 N", "FFLFRFFF", "3 3 E", "LLFFFLFFFR"];
    let reference = vec![
        Tondeuse {
            pos: Position {
                x: 0,
                y: 5,
                orientation: Orientation::N,
            },
            mouvement: vec!['F', 'F', 'L', 'F', 'R', 'F', 'F', 'F'],
            max_x: 5,
            max_y: 5,
            order: 0,
        },
        Tondeuse {
            pos: Position {
                x: 0,
                y: 0,
                orientation: Orientation::W,
            },
            mouvement: vec!['L', 'L', 'F', 'F', 'F', 'L', 'F', 'F', 'F', 'R'],
            max_x: 5,
            max_y: 5,
            order: 1,
        },
    ];

    let result = executor(input);
    assert_eq!(reference, result);
}

#[test]
fn bounds_line_alone_yields_no_agents() {
    let result = executor(vec!["5 5"]);
    assert!(result.is_empty());
}

#[test]
fn trailing_odd_line_is_ignored() {
    let result = executor(vec!["5 5", "1 1 E", "FF", "2 2 N"]);
    assert_eq!(result.len(), 1);
    assert_eq!(result[0].pos, Position { x: 3, y: 1, orientation: Orientation::E });
}

#[test]
fn agents_blocked_by_each_other_stay_put() {
    // Two agents face each other; both advances are refused, never merged.
    let result = executor(vec!["1 0", "0 0 E", "F", "1 0 W", "F"]);
    assert_eq!(result[0].pos, Position { x: 0, y: 0, orientation: Orientation::E });
    assert_eq!(result[1].pos, Position { x: 1, y: 0, orientation: Orientation::W });
}

#[test]
fn malformed_bounds_default_to_zero() {
    // A non-numeric bound defaults to 0: the agent is pinned to the origin.
    let result = executor(vec!["a b", "0 0 N", "FF"]);
    assert_eq!(result[0].pos, Position { x: 0, y: 0, orientation: Orientation::N });
}

#[test]
fn rerunning_the_same_input_gives_the_same_states() {
    let input = vec!["5 5", "1 2 N", "LFLFLFLFF", "3 3 E", "FFRFFRFRRF"];
    let first = executor(input.clone());
    let second = executor(input);
    assert_eq!(first, second);
}

#[test]
fn unrecognized_instruction_symbols_are_ignored() {
    let result = executor(vec!["5 5", "1 1 N", "FXQF"]);
    assert_eq!(result[0].pos, Position { x: 1, y: 3, orientation: Orientation::N });
}
