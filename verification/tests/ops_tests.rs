use genetic_logic::ops::{
    dir_name, dir_to_offset, eval_gate, is_jump, is_logic_gate, is_void, is_wire, jump_offset, op_name,
    op_symbol, JUMP_DIR_E, JUMP_DIR_N, JUMP_DIR_S, JUMP_DIR_W, OP_A, OP_AND, OP_B, OP_JUMP, OP_NAND, OP_NOR,
    OP_OR, OP_VOID, OP_XNOR, OP_XOR,
};

#[test]
fn test_logic_gates() {
    // Test XOR
    assert_eq!(eval_gate(OP_XOR, 0, 0), 0);
    assert_eq!(eval_gate(OP_XOR, 0, 1), 1);
    assert_eq!(eval_gate(OP_XOR, 1, 0), 1);
    assert_eq!(eval_gate(OP_XOR, 1, 1), 0);

    // Test AND
    assert_eq!(eval_gate(OP_AND, 0, 0), 0);
    assert_eq!(eval_gate(OP_AND, 0, 1), 0);
    assert_eq!(eval_gate(OP_AND, 1, 0), 0);
    assert_eq!(eval_gate(OP_AND, 1, 1), 1);

    // Test OR
    assert_eq!(eval_gate(OP_OR, 0, 0), 0);
    assert_eq!(eval_gate(OP_OR, 0, 1), 1);
    assert_eq!(eval_gate(OP_OR, 1, 0), 1);
    assert_eq!(eval_gate(OP_OR, 1, 1), 1);

    // Test pass-through wires
    assert_eq!(eval_gate(OP_A, 0, 0), 0);
    assert_eq!(eval_gate(OP_A, 0, 1), 0);
    assert_eq!(eval_gate(OP_A, 1, 0), 1);
    assert_eq!(eval_gate(OP_A, 1, 1), 1);

    assert_eq!(eval_gate(OP_B, 0, 0), 0);
    assert_eq!(eval_gate(OP_B, 0, 1), 1);
    assert_eq!(eval_gate(OP_B, 1, 0), 0);
    assert_eq!(eval_gate(OP_B, 1, 1), 1);
}

#[test]
fn test_jump_offsets() {
    assert_eq!(jump_offset(JUMP_DIR_N, 2), (0, -2));
    assert_eq!(jump_offset(JUMP_DIR_E, 3), (3, 0));
    assert_eq!(jump_offset(JUMP_DIR_S, 4), (0, 4));
    assert_eq!(jump_offset(JUMP_DIR_W, 2), (-2, 0));
}

#[test]
fn gate_truth_tables_are_the_op_bits() {
    for op in 0..16u32 {
        for a in 0..2u32 {
            for b in 0..2u32 {
                assert_eq!(eval_gate(op, a, b), (op >> ((a << 1) | b)) & 1);
            }
        }
    }
    assert_eq!(eval_gate(OP_NAND, 1, 1), 0);
    assert_eq!(eval_gate(OP_NOR, 0, 0), 1);
    assert_eq!(eval_gate(OP_XNOR, 1, 1), 1);
}

#[test]
fn void_and_jump_ops_output_zero() {
    assert_eq!(eval_gate(OP_VOID, 1, 1), 0);
    assert_eq!(eval_gate(OP_JUMP, 1, 0), 0);
    assert_eq!(eval_gate(99, 1, 1), 0);
}

#[test]
fn op_classes() {
    assert!(is_logic_gate(15));
    assert!(!is_logic_gate(16));
    assert!(is_void(OP_VOID));
    assert!(!is_void(OP_JUMP));
    assert!(is_jump(OP_JUMP));
    assert!(is_wire(OP_A));
    assert!(is_wire(OP_B));
    assert!(!is_wire(OP_AND));
}

#[test]
fn names_and_symbols() {
    assert_eq!(op_name(OP_XOR), "XOR");
    assert_eq!(op_name(OP_VOID), "VOID");
    assert_eq!(op_name(OP_JUMP), "JUMP");
    assert_eq!(op_name(200), "UNKNOWN");
    assert_eq!(op_symbol(OP_AND), "∧");
    assert_eq!(op_symbol(OP_VOID), "·");
    assert_eq!(op_symbol(99), "?");
    assert_eq!(dir_name(0), "N");
    assert_eq!(dir_name(7), "NW");
}

#[test]
fn direction_offsets() {
    assert_eq!(dir_to_offset(0), (0, -1));
    assert_eq!(dir_to_offset(1), (1, -1));
    assert_eq!(dir_to_offset(3), (1, 1));
    assert_eq!(dir_to_offset(6), (-1, 0));
    assert_eq!(dir_to_offset(9), (0, 0));
    assert_eq!(jump_offset(7, 3), (0, 0));
}

#[test]
fn op_names_and_symbols_are_distinct() {
    for i in 0..=17u32 {
        assert_ne!(op_name(i), "UNKNOWN");
        assert_ne!(op_symbol(i), "?");
        for j in 0..=17u32 {
            if i != j {
                assert_ne!(op_name(i), op_name(j));
                assert_ne!(op_symbol(i), op_symbol(j));
            }
        }
        let classes = [is_logic_gate(i), is_void(i), is_jump(i)].iter().filter(|&&c| c).count();
        assert_eq!(classes, 1);
    }
    for op in [18u32, 19, 100, u32::MAX] {
        assert_eq!(op_name(op), "UNKNOWN");
        assert_eq!(op_symbol(op), "?");
        assert!(!is_logic_gate(op) && !is_void(op) && !is_jump(op));
    }
    assert_eq!(op_name(6), "XOR");
    assert_eq!(op_name(16), "VOID");
    assert_eq!(op_name(17), "JUMP");
    assert_eq!(op_symbol(0), "0");
    assert_eq!(op_symbol(15), "1");
    assert_eq!(op_symbol(16), "·");
}
