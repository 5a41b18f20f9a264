use lib::peephole::PeepholeOptimizer;

#[test]
fn test_remove_add_zero() {
    let optimizer = PeepholeOptimizer::new();
    let code = vec![0x01, 5, 0x01, 0, 0x02];
    let result = optimizer.optimize(&code);
    assert_eq!(result, vec![0x01, 5]);
}

#[test]
fn test_remove_mul_zero() {
    let optimizer = PeepholeOptimizer::new();
    let code = vec![0x01, 10, 0x01, 0, 0x04];
    let result = optimizer.optimize(&code);
    assert_eq!(result, vec![0x01, 0]);
}

#[test]
fn test_remove_mul_one() {
    let optimizer = PeepholeOptimizer::new();
    let code = vec![0x01, 42, 0x01, 1, 0x04];
    let result = optimizer.optimize(&code);
    assert_eq!(result, vec![0x01, 42]);
}

#[test]
fn test_remove_redundant_load_store() {
    let optimizer = PeepholeOptimizer::new();
    let code = vec![0x20, 5, 0x21, 5];
    let result = optimizer.optimize(&code);
    assert_eq!(result, vec![]);
}

#[test]
fn test_constant_fold_add() {
    let optimizer = PeepholeOptimizer::new();
    let code = vec![0x01, 3, 0x01, 4, 0x02];
    let result = optimizer.optimize(&code);
    assert_eq!(result, vec![0x01, 7]);
}

#[test]
fn test_constant_fold_cmp_eq() {
    let optimizer = PeepholeOptimizer::new();
    let code = vec![0x01, 5, 0x01, 5, 0x30];
    let result = optimizer.optimize(&code);
    assert_eq!(result, vec![0x01, 1]);
}

#[test]
fn test_constant_fold_cmp_lt() {
    let optimizer = PeepholeOptimizer::new();
    let code = vec![0x01, 3, 0x01, 7, 0x31];
    let result = optimizer.optimize(&code);
    assert_eq!(result, vec![0x01, 1]);
}

#[test]
fn test_multi_pass() {
    let optimizer = PeepholeOptimizer::new();
    // PUSH 0, ADD inside a longer sequence should be removed
    let code = vec![0x01, 5, 0x01, 0, 0x02, 0x01, 1, 0x01, 0, 0x03];
    let result = optimizer.optimize(&code);
    assert_eq!(result, vec![0x01, 5, 0x01, 1]);
}

#[test]
fn test_jump_to_jump_chain() {
    let optimizer = PeepholeOptimizer::new();
    // JMP 3 where @3 is JMP 5 -> redirect to JMP 5, then JMP 5 -> next -> deleted
    // Original: JMP 3 -> JMP 5 -> PRINT
    // @0-1: JMP 3, @2: PRINT (unreachable), @3-4: JMP 5, @5: PRINT (target)
    let code = vec![
        0x40, 3,    // @0-1: JMP 3
        0x51,       // @2:   PRINT
        0x40, 5,    // @3-4: JMP 5
        0x51,       // @5:   PRINT
    ];
    let result = optimizer.optimize(&code);
    // Pass 1: JMP 3 -> JMP 5, JMP 5 -> deleted (next). Result: [0x40, 5, 0x51, 0x51]
    // then adjust JMP target: addr_map[5] = Some(3) -> JMP 3
    // Pass 2: stable
    // Final: JMP 3 (direct to target PRINT), PRINT (unreachable), PRINT (target)
    assert_eq!(result, vec![0x40, 3, 0x51, 0x51]);
}

#[test]
fn test_push_value_guard_jmp() {
    let optimizer = PeepholeOptimizer::new();
    // PUSH 64 (0x40) followed by SUB (0x03)
    // Without guard, 0x40 at offset 1 would be treated as JMP with target 0x03
    // i+2=3, target=3 -> would delete JMP (corrupting PUSH operand)
    // With guard: no corruption
    let code = vec![0x01, 0x40, 0x03];
    let result = optimizer.optimize(&code);
    assert_eq!(result, vec![0x01, 0x40, 0x03]);
}

#[test]
fn test_push_value_guard_load_store() {
    let optimizer = PeepholeOptimizer::new();
    // PUSH 32 (0x20) followed by LOAD pattern
    // Without guard, 0x20 at offset 1 would be treated as LOAD
    // With guard: no corruption
    let code = vec![0x01, 0x20, 0x21, 0x05];
    let result = optimizer.optimize(&code);
    assert_eq!(result, vec![0x01, 0x20, 0x21, 0x05]);
}

#[test]
fn test_dead_store_adjacent() {
    let optimizer = PeepholeOptimizer::new();
    // PUSH 0, STORE 0, PUSH 5, STORE 0 -> PUSH 5, STORE 0
    let code = vec![0x01, 0, 0x21, 0, 0x01, 5, 0x21, 0];
    let result = optimizer.optimize(&code);
    assert_eq!(result, vec![0x01, 5, 0x21, 0]);
}

#[test]
fn test_dead_store_with_intervening() {
    let optimizer = PeepholeOptimizer::new();
    // PUSH 0, STORE 0, PUSH 99, STORE 1, PUSH 5, STORE 0
    // First STORE 0 is dead (slot 0 not loaded before second STORE 0)
    let code = vec![0x01, 0, 0x21, 0, 0x01, 99, 0x21, 1, 0x01, 5, 0x21, 0];
    let result = optimizer.optimize(&code);
    assert_eq!(result, vec![0x01, 99, 0x21, 1, 0x01, 5, 0x21, 0]);
}

#[test]
fn test_dead_store_live_via_load() {
    let optimizer = PeepholeOptimizer::new();
    // PUSH 0, STORE 0, LOAD 0, ... -> store is live, don't touch
    let code = vec![0x01, 0, 0x21, 0, 0x20, 0, 0x01, 5, 0x21, 0];
    let result = optimizer.optimize(&code);
    assert_eq!(result, vec![0x01, 0, 0x21, 0, 0x20, 0, 0x01, 5, 0x21, 0]);
}

#[test]
fn test_dead_store_diff_slot_live() {
    let optimizer = PeepholeOptimizer::new();
    // PUSH 0, STORE 1, PUSH 5, STORE 1 (different slot from other activity)
    // First STORE 1 is dead
    let code = vec![0x01, 0, 0x21, 1, 0x01, 99, 0x21, 2, 0x01, 5, 0x21, 1];
    let result = optimizer.optimize(&code);
    assert_eq!(result, vec![0x01, 99, 0x21, 2, 0x01, 5, 0x21, 1]);
}

#[test]
fn test_jump_adj_after_removal() {
    let optimizer = PeepholeOptimizer::new();
    // LOAD 0, STORE 0 (4 bytes) removed before JMP that skips forward
    // Original layout:
    //   @0-3: LOAD 0, STORE 0 (removed)
    //   @4-5: PUSH 42
    //   @6:   PRINT
    //   @7-8: PUSH 1
    //   @9-10: JMP 13 (targets PRINT at @13)
    //   @11-12: PUSH 99 (skipped)
    //   @13:  PRINT (target)
    let code = vec![
        0x20, 0, 0x21, 0,  // @0-3: LOAD 0, STORE 0
        0x01, 42,          // @4-5: PUSH 42
        0x51,              // @6:   PRINT 42
        0x01, 1,           // @7-8: PUSH 1
        0x40, 13,          // @9-10: JMP 13 -> target PRINT at @13
        0x01, 99,          // @11-12: PUSH 99 (skipped)
        0x51,              // @13:  PRINT target
    ];
    let result = optimizer.optimize(&code);
    // After 4-byte removal:
    //   @0-1: PUSH 42, @2: PRINT, @3-4: PUSH 1,
    //   @5-6: JMP 9 (13-4=9), @7-8: PUSH 99, @9: PRINT
    assert_eq!(result, vec![0x01, 42, 0x51, 0x01, 1, 0x40, 9, 0x01, 99, 0x51]);
}
