use brainfuck_rust::{resolve, Error, Interpreter};

fn run(source: &str, memory: Vec<u8>, input: &[u8]) -> (Interpreter, Result<(), Error>) {
    let source: Vec<char> = source.chars().collect();
    let mut interpreter = Interpreter::new(memory, input.to_vec());
    let result = interpreter.interpret(&source);
    (interpreter, result)
}

#[test]
fn test_cell_increment_wraps_to_zero() {
    let (interpreter, result) = run("+", vec![255], &[]);
    assert!(result.is_ok());
    assert_eq!(interpreter.memory, vec![0]);

    let many_plus: String = "+".repeat(256);
    let (interpreter, result) = run(&many_plus, vec![0], &[]);
    assert!(result.is_ok());
    assert_eq!(interpreter.memory, vec![0]);
}

#[test]
fn test_cell_decrement_wraps_to_255() {
    let (interpreter, result) = run("-", vec![0], &[]);
    assert!(result.is_ok());
    assert_eq!(interpreter.memory, vec![255]);
}

#[test]
fn test_pointer_wraps_left_to_max() {
    let (interpreter, result) = run("<", vec![0; 3], &[]);
    assert!(result.is_ok());
    assert_eq!(interpreter.data_pointer, usize::MAX);
    assert_eq!(interpreter.memory, vec![0; 3]);
}

#[test]
fn test_pointer_wraps_round_trip() {
    let (interpreter, result) = run("<>", vec![0; 3], &[]);
    assert!(result.is_ok());
    assert_eq!(interpreter.data_pointer, 0);
}

#[test]
fn test_read_past_end_of_input_is_noop() {
    let (interpreter, result) = run(",", vec![7], &[]);
    assert!(result.is_ok());
    assert_eq!(interpreter.memory, vec![7]);

    // the first read consumes the one input byte; the second finds the
    // input exhausted and leaves the cell alone
    let (interpreter, result) = run(",,.", vec![0], &[9]);
    assert!(result.is_ok());
    assert_eq!(interpreter.memory, vec![9]);
    assert_eq!(interpreter.output, vec![9]);
}

#[test]
fn test_round_trip_read_then_write() {
    let (interpreter, result) = run(",.", vec![0], &[0x41]);
    assert!(result.is_ok());
    assert_eq!(interpreter.output, vec![0x41]);
    assert_eq!(interpreter.memory, vec![0x41]);
}

#[test]
fn test_unmatched_closing_bracket_position() {
    let (interpreter, result) = run("]", vec![0; 2], &[]);
    match result {
        Err(Error::UnmatchedClosingBracket { position }) => assert_eq!(position, 0),
        _ => panic!("expected an unmatched closing bracket"),
    }
    assert_eq!(interpreter.memory, vec![0; 2]);
    assert!(interpreter.output.is_empty());

    let (_, result) = run("[]]", vec![0; 2], &[]);
    match result {
        Err(Error::UnmatchedClosingBracket { position }) => assert_eq!(position, 2),
        _ => panic!("expected an unmatched closing bracket"),
    }
}

#[test]
fn test_unmatched_opening_bracket_positions_in_push_order() {
    let (_, result) = run("[[", vec![0; 2], &[]);
    match result {
        Err(Error::UnmatchedOpeningBracket { positions }) => assert_eq!(positions, vec![0, 1]),
        _ => panic!("expected unmatched opening brackets"),
    }

    let (_, result) = run("[][[", vec![0; 2], &[]);
    match result {
        Err(Error::UnmatchedOpeningBracket { positions }) => assert_eq!(positions, vec![2, 3]),
        _ => panic!("expected unmatched opening brackets"),
    }
}

#[test]
fn test_resolved_jump_table_is_symmetric() {
    let source: Vec<char> = "[[]][]".chars().collect();
    let table = match resolve(&source) {
        Ok(t) => t,
        Err(_) => panic!("balanced program must resolve"),
    };
    for (&k, &v) in table.iter() {
        assert_eq!(table.get(&v), Some(&k), "table[table[{}]] != {}", k, k);
    }
    assert_eq!(table.get(&0), Some(&3));
    assert_eq!(table.get(&1), Some(&2));
    assert_eq!(table.get(&4), Some(&5));
    assert_eq!(table.len(), 6);
}

#[test]
fn test_resolve_ignores_non_bracket_characters() {
    let source: Vec<char> = "a[b]c".chars().collect();
    let table = match resolve(&source) {
        Ok(t) => t,
        Err(_) => panic!("balanced program must resolve"),
    };
    assert_eq!(table.get(&1), Some(&3));
    assert_eq!(table.get(&3), Some(&1));
    assert_eq!(table.get(&0), None);
    assert_eq!(table.len(), 2);
}

#[test]
fn test_pointer_out_of_bounds_is_reported() {
    let (interpreter, result) = run(">+", vec![0], &[]);
    match result {
        Err(Error::PointerOutOfBounds {
            program_counter,
            data_pointer,
        }) => {
            assert_eq!(program_counter, 1);
            assert_eq!(data_pointer, 1);
        }
        _ => panic!("expected a pointer out of bounds error"),
    }
    assert_eq!(interpreter.memory, vec![0]);
}

#[test]
fn test_partial_output_kept_on_failure() {
    let (interpreter, result) = run(".>.", vec![65], &[]);
    assert!(matches!(result, Err(Error::PointerOutOfBounds { .. })));
    assert_eq!(interpreter.output, vec![65]);
}

#[test]
fn test_loop_clears_cell() {
    let (interpreter, result) = run("[-]", vec![5], &[]);
    assert!(result.is_ok());
    assert_eq!(interpreter.memory, vec![0]);
}

#[test]
fn test_nested_loops_move_values() {
    let (interpreter, result) = run("++[>++[>+<-]<-]", vec![0; 3], &[]);
    assert!(result.is_ok());
    assert_eq!(interpreter.memory, vec![0, 0, 4]);
}

#[test]
fn test_empty_program_halts_immediately() {
    let (interpreter, result) = run("", vec![0; 2], &[]);
    assert!(result.is_ok());
    assert_eq!(interpreter.memory, vec![0; 2]);
    assert_eq!(interpreter.program_counter, 0);
    assert!(interpreter.output.is_empty());
}

#[test]
fn test_non_opcode_characters_are_inert() {
    let (interpreter, result) = run("ab c!?", vec![0; 2], &[]);
    assert!(result.is_ok());
    assert_eq!(interpreter.memory, vec![0; 2]);
    assert_eq!(interpreter.data_pointer, 0);
    assert_eq!(interpreter.program_counter, 6);
}
