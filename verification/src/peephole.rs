/// Bytecode peephole optimizer
/// Removes redundant patterns and optimizes instruction sequences
use vstd::prelude::*;

verus! {

/// Opcodes followed by a one-byte operand:
/// 0x01 PUSH, 0x08 ARRLIT, 0x20 LOAD, 0x21 STORE, 0x40 JMP, 0x41 JMP_IF_FALSE,
/// 0x50 CALL_NATIVE, 0x60 CALL.
pub open spec fn takes_operand(b: u8) -> bool {
    b == 0x01 || b == 0x08 || b == 0x20 || b == 0x21 || b == 0x40 || b == 0x41 || b == 0x50 || b
        == 0x60
}

/// The byte at `i` directly follows an opcode that takes an operand, so it
/// is read as that operand rather than as an opcode.
pub open spec fn follows_operand_opcode(code: Seq<u8>, i: int) -> bool {
    i >= 1 && takes_operand(code[i - 1])
}

/// `PUSH val; op` at `i`, where the `PUSH` is a real opcode.
pub open spec fn spec_match_push_op(code: Seq<u8>, i: int, val: u8, op: u8) -> bool {
    &&& 0 <= i
    &&& i + 2 < code.len()
    &&& code[i] == 0x01
    &&& !follows_operand_opcode(code, i)
    &&& code[i + 1] == val
    &&& code[i + 2] == op
}

/// A byte read as a signed 8-bit number.
pub open spec fn signed_byte(b: u8) -> int {
    if b < 128 {
        b as int
    } else {
        b as int - 256
    }
}

/// Integer division rounding toward zero.
pub open spec fn div_toward_zero(a: int, b: int) -> int {
    if (a >= 0) == (b > 0) {
        let q = abs(a) / abs(b);
        q
    } else {
        -(abs(a) / abs(b))
    }
}

pub open spec fn abs(a: int) -> int {
    if a < 0 {
        -a
    } else {
        a
    }
}

/// The value of `a op b` for a foldable opcode (the comparisons give 1 or 0).
pub open spec fn fold_value(op: u8, a: int, b: int) -> Option<int> {
    if op == 0x02 {
        Some(a + b)
    } else if op == 0x03 {
        Some(a - b)
    } else if op == 0x04 {
        Some(a * b)
    } else if op == 0x05 {
        if b != 0 {
            Some(div_toward_zero(a, b))
        } else {
            None
        }
    } else if op == 0x30 {
        Some(if a == b { 1 } else { 0 })
    } else if op == 0x31 {
        Some(if a < b { 1 } else { 0 })
    } else if op == 0x32 {
        Some(if a > b { 1 } else { 0 })
    } else if op == 0x34 {
        Some(if a <= b { 1 } else { 0 })
    } else if op == 0x35 {
        Some(if a >= b { 1 } else { 0 })
    } else {
        None
    }
}

/// Constant folding: `PUSH a; PUSH b; op` at `i` becomes `PUSH r` when the
/// operands, read as signed bytes, give a result `r` in `0..=255`.
pub open spec fn spec_fold_constants(code: Seq<u8>, i: int) -> Option<(Seq<u8>, int)> {
    if !(0 <= i && i + 4 < code.len()) {
        None
    } else if code[i] != 0x01 || code[i + 2] != 0x01 {
        None
    } else if follows_operand_opcode(code, i) {
        None
    } else {
        match fold_value(code[i + 4], signed_byte(code[i + 1]), signed_byte(code[i + 3])) {
            Some(r) => if 0 <= r <= 255 {
                Some((seq![0x01u8, r as u8], 5))
            } else {
                None
            },
            None => None,
        }
    }
}

/// Scan for the next use of `slot` after a `PUSH v; STORE slot` at `i`,
/// from `j`: a `STORE slot` first means the first store is dead, a
/// `LOAD slot`, `CALL`, `RET`, `JMP` or `JMP_IF_FALSE` first means it is not
/// (the value may be read on another path), and the scan looks at most 32
/// bytes past `i`.
pub open spec fn dead_store_scan(code: Seq<u8>, i: int, slot: u8, j: int) -> bool
    decreases code.len() + 2 - j,
{
    if !(j < code.len() && j - i < 32) || j < 0 {
        false
    } else if follows_operand_opcode(code, j) {
        dead_store_scan(code, i, slot, j + 1)
    } else {
        let op = code[j];
        if op == 0x20 && j + 1 < code.len() && code[j + 1] == slot {
            false
        } else if op == 0x21 && j + 1 < code.len() && code[j + 1] == slot {
            true
        } else if op == 0x60 || op == 0x61 || op == 0x40 || op == 0x41 {
            false
        } else if op == 0x01 || op == 0x08 || op == 0x20 || op == 0x21 || op == 0x50 {
            dead_store_scan(code, i, slot, j + 2)
        } else {
            dead_store_scan(code, i, slot, j + 1)
        }
    }
}

/// Dead store: `PUSH v; STORE x` at `i` whose value is overwritten before it
/// is read is removed.
pub open spec fn spec_dead_store(code: Seq<u8>, i: int) -> Option<(Seq<u8>, int)> {
    if !(0 <= i < code.len()) || code[i] != 0x01 {
        None
    } else if follows_operand_opcode(code, i) {
        None
    } else if i + 3 >= code.len() || code[i + 2] != 0x21 {
        None
    } else if dead_store_scan(code, i, code[i + 3], i + 4) {
        Some((Seq::empty(), 4))
    } else {
        None
    }
}

/// The rewrite that applies at `i`, if any: its replacement bytes and how
/// many bytes it replaces. Rules are tried in order.
pub open spec fn spec_try_opt(code: Seq<u8>, i: int) -> Option<(Seq<u8>, int)> {
    let opcode = code[i];
    if !(0 <= i < code.len()) {
        None
    } else if opcode == 0x20 && i + 3 < code.len() && !follows_operand_opcode(code, i) && code[i
        + 2] == 0x21 && code[i + 3] == code[i + 1] {
        // LOAD x; STORE x
        Some((Seq::empty(), 4))
    } else if spec_match_push_op(code, i, 0, 0x02) {
        Some((Seq::empty(), 3))
    } else if spec_match_push_op(code, i, 0, 0x03) {
        Some((Seq::empty(), 3))
    } else if spec_match_push_op(code, i, 0, 0x04) {
        Some((seq![0x01u8, 0u8], 3))
    } else if spec_match_push_op(code, i, 1, 0x04) {
        Some((Seq::empty(), 3))
    } else if spec_match_push_op(code, i, 1, 0x05) {
        Some((Seq::empty(), 3))
    } else if spec_fold_constants(code, i) is Some {
        spec_fold_constants(code, i)
    } else if opcode == 0x40 && i + 2 < code.len() && !follows_operand_opcode(code, i) && code[i
        + 1] == i + 2 {
        // JMP to the next instruction
        Some((Seq::empty(), 2))
    } else if opcode == 0x40 && i + 1 < code.len() && !follows_operand_opcode(code, i) && code[i
        + 1] + 1 < code.len() && code[code[i + 1] as int] == 0x40 && !follows_operand_opcode(
        code,
        code[i + 1] as int,
    ) && code[code[i + 1] + 1] != code[i + 1] {
        // JMP to a JMP: jump straight to the final target
        Some((seq![0x40u8, code[code[i + 1] + 1]], 2))
    } else {
        spec_dead_store(code, i)
    }
}

/// The address map after a rewrite at `i` of `skip` bytes by `rep_len` bytes
/// that start at `start` in the output.
pub open spec fn fill_map(
    amap: Seq<Option<int>>,
    i: int,
    start: int,
    rep_len: int,
    skip: int,
) -> Seq<Option<int>> {
    Seq::new(
        amap.len(),
        |k: int|
            if i <= k < i + skip {
                if k - i < rep_len {
                    Some(start + (k - i))
                } else {
                    None
                }
            } else {
                amap[k]
            },
    )
}

/// One left-to-right rewriting scan from `i`, with the output and the map
/// from old to new addresses built so far.
pub open spec fn pass_scan(code: Seq<u8>, i: int, out: Seq<u8>, amap: Seq<Option<int>>) -> (
    Seq<u8>,
    Seq<Option<int>>,
)
    decreases code.len() - i,
{
    if !(0 <= i < code.len()) {
        (out, amap)
    } else {
        match spec_try_opt(code, i) {
            Some((rep, skip)) => if skip > 0 {
                pass_scan(
                    code,
                    i + skip,
                    out + rep,
                    fill_map(amap, i, out.len() as int, rep.len() as int, skip),
                )
            } else {
                (out, amap)
            },
            None => pass_scan(code, i + 1, out.push(code[i]), amap.update(i, Some(out.len() as int))),
        }
    }
}

/// Rewrites the target of each jump and call through the address map, from
/// position `i` on.
pub open spec fn adjust_scan(code: Seq<u8>, map: Seq<Option<int>>, i: int) -> Seq<u8>
    decreases code.len() + 2 - i,
{
    if !(0 <= i < code.len()) {
        code
    } else {
        let opcode = code[i];
        if opcode == 0x40 || opcode == 0x41 || opcode == 0x60 {
            let code2 = if i + 1 < code.len() && (code[i + 1] as int) < map.len() && map[code[i
                + 1] as int] is Some {
                code.update(i + 1, map[code[i + 1] as int]->0 as u8)
            } else {
                code
            };
            adjust_scan(code2, map, i + 2)
        } else if opcode == 0x01 || opcode == 0x08 || opcode == 0x20 || opcode == 0x21 || opcode
            == 0x50 {
            adjust_scan(code, map, i + 2)
        } else {
            adjust_scan(code, map, i + 1)
        }
    }
}

/// One optimization pass: rewrite, then fix jump targets.
pub open spec fn spec_run_pass(code: Seq<u8>) -> Seq<u8> {
    let (out, amap) = pass_scan(code, 0, Seq::empty(), Seq::new(code.len(), |k: int| None));
    adjust_scan(out, amap, 0)
}

/// The code after `n` passes.
pub open spec fn pass_iter(code: Seq<u8>, n: nat) -> Seq<u8>
    decreases n,
{
    if n == 0 {
        code
    } else {
        spec_run_pass(pass_iter(code, (n - 1) as nat))
    }
}

/// The code is unchanged by a pass.
pub open spec fn is_fixpoint(code: Seq<u8>) -> bool {
    spec_run_pass(code) == code
}

/// Passes reach a fixpoint.
pub open spec fn reaches_fixpoint(code: Seq<u8>) -> bool {
    exists|n: nat| is_fixpoint(#[trigger] pass_iter(code, n))
}

/// The address map with addresses as integers.
pub open spec fn opt_map_view(m: Seq<Option<usize>>) -> Seq<Option<int>> {
    Seq::new(
        m.len(),
        |k: int|
            match m[k] {
                Some(a) => Some(a as int),
                None => None,
            },
    )
}

/// An address as an integer.
pub open spec fn opt_int(a: Option<usize>) -> Option<int> {
    match a {
        Some(x) => Some(x as int),
        None => None,
    }
}

proof fn lemma_opt_map_update(m: Seq<Option<usize>>, idx: int, v: Option<usize>)
    requires
        0 <= idx < m.len(),
    ensures
        opt_map_view(m.update(idx, v)) == opt_map_view(m).update(idx, opt_int(v)),
{
    assert(opt_map_view(m.update(idx, v)) =~= opt_map_view(m).update(idx, opt_int(v)));
}

/// A rewrite replaces a nonempty span inside the code by no more bytes.
pub open spec fn rewrite_ok(code: Seq<u8>, i: int, r: Option<(Seq<u8>, int)>) -> bool {
    r matches Some((rep, skip)) ==> 2 <= skip && i + skip <= code.len() && rep.len() <= skip
}

/// Every rewrite replaces at least two bytes, stays inside the code and does
/// not lengthen it.
pub proof fn lemma_try_opt_ok(code: Seq<u8>, i: int)
    ensures
        rewrite_ok(code, i, spec_try_opt(code, i)),
{
}

/// `q` is `a / b` rounded toward zero: the remainder `a - q * b` is smaller
/// than `b` in size and is zero or has the sign of `a`.
pub open spec fn is_truncated_quotient(a: int, b: int, q: int) -> bool {
    let rem = a - q * b;
    &&& (if rem < 0 { -rem } else { rem }) < (if b < 0 { -b } else { b })
    &&& (rem == 0 || (rem < 0) == (a < 0))
}

/// Division rounding toward zero gives the truncated quotient.
pub proof fn lemma_div_toward_zero(a: int, b: int)
    requires
        b != 0,
    ensures
        is_truncated_quotient(a, b, div_toward_zero(a, b)),
        abs(div_toward_zero(a, b)) <= abs(a),
        abs(b) >= 2 ==> 2 * abs(div_toward_zero(a, b)) <= abs(a),
{
    let x = abs(a);
    let y = abs(b);
    let q0 = x / y;
    let r0 = x % y;
    assert(x == q0 * y + r0 && 0 <= r0 < y) by (nonlinear_arith)
        requires
            y > 0,
            x >= 0,
            q0 == x / y,
            r0 == x % y,
    ;
    assert(q0 <= x) by (nonlinear_arith)
        requires
            x == q0 * y + r0,
            0 <= r0,
            y >= 1,
            x >= 0,
    ;
    assert(y >= 2 ==> 2 * q0 <= x) by (nonlinear_arith)
        requires
            x == q0 * y + r0,
            0 <= r0,
            y >= 1,
            x >= 0,
    ;
    let q = div_toward_zero(a, b);
    if a >= 0 && b > 0 {
        assert(q * b == q0 * y);
        assert(a - q * b == r0);
    } else if a < 0 && b < 0 {
        assert(q * b == -(q0 * y)) by (nonlinear_arith)
            requires
                q == q0,
                b == -y,
        ;
        assert(a - q * b == -r0);
    } else if a >= 0 && b < 0 {
        assert(q * b == q0 * y) by (nonlinear_arith)
            requires
                q == -q0,
                b == -y,
        ;
        assert(a - q * b == r0);
    } else {
        assert(q * b == -(q0 * y)) by (nonlinear_arith)
            requires
                q == -q0,
                b == y,
        ;
        assert(a - q * b == -r0);
    }
}

/// The first operand of `PUSH a; PUSH b; op` at `i`, read as a signed byte.
pub open spec fn operand_a(code: Seq<u8>, i: int) -> int {
    if code[i + 1] < 128 { code[i + 1] as int } else { code[i + 1] - 256 }
}

/// The second operand of `PUSH a; PUSH b; op` at `i`, read as a signed byte.
pub open spec fn operand_b(code: Seq<u8>, i: int) -> int {
    if code[i + 3] < 128 { code[i + 3] as int } else { code[i + 3] - 256 }
}

/// The five bytes at `i` are rewritten to `PUSH r`.
pub open spec fn folds_to(code: Seq<u8>, i: int, r: int) -> bool {
    spec_try_opt(code, i) == Some((seq![0x01u8, r as u8], 5int))
}

/// The five bytes at `i` are rewritten to `PUSH r` when `r` is a byte, and
/// left alone otherwise.
pub open spec fn folds_in_range(code: Seq<u8>, i: int, r: int) -> bool {
    if 0 <= r <= 255 { folds_to(code, i, r) } else { spec_try_opt(code, i) is None }
}

/// Constant folding computes the operation: at an instruction, `PUSH a;
/// PUSH b; op`, with `a` and `b` read as signed bytes, becomes `PUSH r`
/// where `r` is `a + b` (`ADD`), `a - b` (`SUB`), `a * b` (`MUL`), `a / b`
/// rounded toward zero (`DIV`, `b` not zero), and 1 or 0 as `a == b`
/// (`CMP_EQ`), `a < b` (`CMP_LT`), `a > b` (`CMP_GT`), `a <= b` (`CMP_LE`),
/// `a >= b` (`CMP_GE`) holds strictly as written; a result outside `0..=255`,
/// a division by zero or another opcode leaves the code as it is there.
pub proof fn law_constant_folding(code: Seq<u8>, i: int)
    requires
        0 <= i,
        i + 4 < code.len(),
        code[i] == 0x01,
        code[i + 2] == 0x01,
        !follows_operand_opcode(code, i),
    ensures
        code[i + 4] == 0x30 ==> folds_to(code, i, if operand_a(code, i) == operand_b(code, i) { 1 } else { 0 }),
        code[i + 4] == 0x31 ==> folds_to(code, i, if operand_a(code, i) < operand_b(code, i) { 1 } else { 0 }),
        code[i + 4] == 0x32 ==> folds_to(code, i, if operand_a(code, i) > operand_b(code, i) { 1 } else { 0 }),
        code[i + 4] == 0x34 ==> folds_to(code, i, if operand_a(code, i) <= operand_b(code, i) { 1 } else { 0 }),
        code[i + 4] == 0x35 ==> folds_to(code, i, if operand_a(code, i) >= operand_b(code, i) { 1 } else { 0 }),
        code[i + 4] == 0x02 ==> folds_in_range(code, i, operand_a(code, i) + operand_b(code, i)),
        code[i + 4] == 0x03 ==> folds_in_range(code, i, operand_a(code, i) - operand_b(code, i)),
        code[i + 4] == 0x04 ==> folds_in_range(code, i, operand_a(code, i) * operand_b(code, i)),
        code[i + 4] == 0x05 && operand_b(code, i) == 0 ==> spec_try_opt(code, i) is None,
        code[i + 4] == 0x05 && operand_b(code, i) != 0 ==> is_truncated_quotient(
            operand_a(code, i),
            operand_b(code, i),
            div_toward_zero(operand_a(code, i), operand_b(code, i)),
        ) && folds_in_range(code, i, div_toward_zero(operand_a(code, i), operand_b(code, i))),
        !(code[i + 4] == 0x02 || code[i + 4] == 0x03 || code[i + 4] == 0x04 || code[i + 4] == 0x05
            || code[i + 4] == 0x30 || code[i + 4] == 0x31 || code[i + 4] == 0x32 || code[i + 4] == 0x34
            || code[i + 4] == 0x35) ==> spec_try_opt(code, i) is None,
{
    let a = operand_a(code, i);
    let b = operand_b(code, i);
    assert(signed_byte(code[i + 1]) == a);
    assert(signed_byte(code[i + 3]) == b);
    let op = code[i + 4];
    assert(code[i] != 0x20);
    assert(!spec_match_push_op(code, i, 0, 0x02));
    assert(!spec_match_push_op(code, i, 0, 0x03));
    assert(!spec_match_push_op(code, i, 0, 0x04));
    assert(!spec_match_push_op(code, i, 1, 0x04));
    assert(!spec_match_push_op(code, i, 1, 0x05));
    if op == 0x05 && b != 0 {
        lemma_div_toward_zero(a, b);
    }
}

/// The rewrites that change no value: at an instruction, `LOAD x; STORE x`
/// (storing back what was just loaded), `PUSH 0; ADD`, `PUSH 0; SUB`,
/// `PUSH 1; MUL` and `PUSH 1; DIV` (adding or subtracting 0, multiplying or
/// dividing by 1) are removed, and `PUSH 0; MUL` leaves `PUSH 0` in their
/// place; a jump to the instruction right after it is removed.
pub proof fn law_no_op_rewrites(code: Seq<u8>, i: int)
    requires
        0 <= i,
        !follows_operand_opcode(code, i),
    ensures
        i + 3 < code.len() && code[i] == 0x20 && code[i + 2] == 0x21 && code[i + 3] == code[i + 1]
            ==> spec_try_opt(code, i) == Some((Seq::<u8>::empty(), 4int)),
        i + 2 < code.len() && code[i] == 0x01 && code[i + 1] == 0 && code[i + 2] == 0x02
            ==> spec_try_opt(code, i) == Some((Seq::<u8>::empty(), 3int)),
        i + 2 < code.len() && code[i] == 0x01 && code[i + 1] == 0 && code[i + 2] == 0x03
            ==> spec_try_opt(code, i) == Some((Seq::<u8>::empty(), 3int)),
        i + 2 < code.len() && code[i] == 0x01 && code[i + 1] == 1 && code[i + 2] == 0x04
            ==> spec_try_opt(code, i) == Some((Seq::<u8>::empty(), 3int)),
        i + 2 < code.len() && code[i] == 0x01 && code[i + 1] == 1 && code[i + 2] == 0x05
            ==> spec_try_opt(code, i) == Some((Seq::<u8>::empty(), 3int)),
        i + 2 < code.len() && code[i] == 0x01 && code[i + 1] == 0 && code[i + 2] == 0x04
            ==> spec_try_opt(code, i) == Some((seq![0x01u8, 0u8], 3int)),
        i + 2 < code.len() && code[i] == 0x40 && code[i + 1] == i + 2
            ==> spec_try_opt(code, i) == Some((Seq::<u8>::empty(), 2int)),
{
}

/// A rewrite starts at an instruction, never at the operand byte of the one
/// before it, replaces at least two bytes that lie in the code, and what it
/// puts in place is no longer than what it replaces.
pub proof fn law_rewrites_start_at_instructions(code: Seq<u8>, i: int)
    ensures
        spec_try_opt(code, i) is Some ==> !follows_operand_opcode(code, i),
        spec_try_opt(code, i) is Some ==> 2 <= spec_try_opt(code, i).unwrap().1,
        spec_try_opt(code, i) is Some ==> i + spec_try_opt(code, i).unwrap().1 <= code.len(),
        spec_try_opt(code, i) is Some ==> spec_try_opt(code, i).unwrap().0.len() <= spec_try_opt(code, i).unwrap().1,
{
    lemma_try_opt_ok(code, i);
}

/// A scan never makes the output longer than the input it consumed.
pub proof fn lemma_pass_scan_len(code: Seq<u8>, i: int, out: Seq<u8>, amap: Seq<Option<int>>)
    requires
        0 <= i <= code.len(),
        amap.len() == code.len(),
    ensures
        pass_scan(code, i, out, amap).0.len() <= out.len() + (code.len() - i),
        pass_scan(code, i, out, amap).1.len() == amap.len(),
    decreases code.len() - i,
{
    if i < code.len() {
        lemma_try_opt_ok(code, i);
        match spec_try_opt(code, i) {
            Some((rep, skip)) => {
                lemma_pass_scan_len(
                    code,
                    i + skip,
                    out + rep,
                    fill_map(amap, i, out.len() as int, rep.len() as int, skip),
                );
            },
            None => {
                lemma_pass_scan_len(code, i + 1, out.push(code[i]), amap.update(i, Some(out.len() as int)));
            },
        }
    }
}

/// Fixing jump targets keeps the length.
pub proof fn lemma_adjust_len(code: Seq<u8>, map: Seq<Option<int>>, i: int)
    ensures
        adjust_scan(code, map, i).len() == code.len(),
    decreases code.len() + 2 - i,
{
    if 0 <= i < code.len() {
        let opcode = code[i];
        if opcode == 0x40 || opcode == 0x41 || opcode == 0x60 {
            let code2 = if i + 1 < code.len() && (code[i + 1] as int) < map.len() && map[code[i
                + 1] as int] is Some {
                code.update(i + 1, map[code[i + 1] as int]->0 as u8)
            } else {
                code
            };
            lemma_adjust_len(code2, map, i + 2);
        } else if opcode == 0x01 || opcode == 0x08 || opcode == 0x20 || opcode == 0x21 || opcode
            == 0x50 {
            lemma_adjust_len(code, map, i + 2);
        } else {
            lemma_adjust_len(code, map, i + 1);
        }
    }
}

/// A pass never makes the code longer.
pub proof fn lemma_pass_no_longer(code: Seq<u8>)
    ensures
        spec_run_pass(code).len() <= code.len(),
{
    let init = Seq::new(code.len(), |k: int| None::<int>);
    lemma_pass_scan_len(code, 0, Seq::empty(), init);
    let (out, amap) = pass_scan(code, 0, Seq::empty(), init);
    lemma_adjust_len(out, amap, 0);
}

pub struct PeepholeOptimizer;

fn has_operand(b: u8) -> (r: bool)
    ensures
        r == takes_operand(b),
{
    b == 0x01 || b == 0x08 || b == 0x20 || b == 0x21 || b == 0x40 || b == 0x41 || b == 0x50 || b
        == 0x60
}

fn is_operand_at(code: &[u8], i: usize) -> (r: bool)
    requires
        i < code@.len(),
    ensures
        r == follows_operand_opcode(code@, i as int),
{
    i >= 1 && has_operand(code[i - 1])
}

fn same_bytes(a: &Vec<u8>, b: &Vec<u8>) -> (r: bool)
    ensures
        r == (a@ == b@),
{
    if a.len() != b.len() {
        return false;
    }
    let mut i: usize = 0;
    while i < a.len()
        invariant
            i <= a.len(),
            a.len() == b.len(),
            forall|j: int| 0 <= j < i ==> a@[j] == b@[j],
        decreases a.len() - i,
    {
        if a[i] != b[i] {
            return false;
        }
        i += 1;
    }
    assert(a@ =~= b@);
    true
}

impl PeepholeOptimizer {
    pub fn new() -> Self {
        Self
    }

    /// Runs passes until one changes nothing, and returns that code: the
    /// first fixpoint reached from `bytecode`.
    pub fn optimize(&self, bytecode: &[u8]) -> (r: Vec<u8>)
        requires
            reaches_fixpoint(bytecode@),
        ensures
            is_fixpoint(r@),
            exists|k: nat|
                r@ == #[trigger] pass_iter(bytecode@, k) && forall|k2: nat|
                    k2 < k ==> !is_fixpoint(#[trigger] pass_iter(bytecode@, k2)),
            r@.len() <= bytecode@.len(),
    {
        let ghost n = choose|n: nat| is_fixpoint(#[trigger] pass_iter(bytecode@, n));
        let mut current: Vec<u8> = vstd::slice::slice_to_vec(bytecode);
        let ghost mut k: nat = 0;
        loop
            invariant
                is_fixpoint(pass_iter(bytecode@, n)),
                k <= n,
                current@ == pass_iter(bytecode@, k),
                forall|k2: nat| k2 < k ==> !is_fixpoint(#[trigger] pass_iter(bytecode@, k2)),
                current@.len() <= bytecode@.len(),
            decreases n - k,
        {
            let pass = self.run_pass(&current);
            proof {
                lemma_pass_no_longer(current@);
            }
            if same_bytes(&pass, &current) {
                return pass;
            }
            proof {
                assert(k != n);
                k = k + 1;
            }
            current = pass;
        }
    }

    /// Runs passes as `optimize` does, but at most `max_passes` of them:
    /// the first fixpoint, where one of the first `max_passes` passes
    /// changes nothing, or else `None`.
    pub fn try_optimize(&self, bytecode: &[u8], max_passes: usize) -> (r: Option<Vec<u8>>)
        ensures
            match r {
                Some(v) => is_fixpoint(v@) && exists|k: nat|
                    k < max_passes && v@ == #[trigger] pass_iter(bytecode@, k) && forall|k2: nat|
                        k2 < k ==> !is_fixpoint(#[trigger] pass_iter(bytecode@, k2)),
                None => forall|k: nat| k < max_passes ==> !is_fixpoint(#[trigger] pass_iter(bytecode@, k)),
            },
    {
        let mut current: Vec<u8> = vstd::slice::slice_to_vec(bytecode);
        let mut k: usize = 0;
        while k < max_passes
            invariant
                k <= max_passes,
                current@ == pass_iter(bytecode@, k as nat),
                forall|k2: nat| k2 < k ==> !is_fixpoint(#[trigger] pass_iter(bytecode@, k2)),
            decreases max_passes - k,
        {
            let pass = self.run_pass(&current);
            if same_bytes(&pass, &current) {
                assert(pass@ == pass_iter(bytecode@, k as nat));
                return Some(pass);
            }
            assert(pass@ == pass_iter(bytecode@, (k + 1) as nat));
            current = pass;
            k += 1;
        }
        None
    }

    fn run_pass(&self, bytecode: &[u8]) -> (r: Vec<u8>)
        ensures
            r@ == spec_run_pass(bytecode@),
    {
        let mut result: Vec<u8> = Vec::new();
        let mut i: usize = 0;
        // map old address -> new address for jump fixup
        let mut addr_map: Vec<Option<usize>> = Vec::new();
        while addr_map.len() < bytecode.len()
            invariant
                addr_map.len() <= bytecode@.len(),
                forall|k: int| 0 <= k < addr_map.len() ==> addr_map@[k] is None,
            decreases bytecode@.len() - addr_map.len(),
        {
            addr_map.push(None);
        }
        let ghost init_map = Seq::new(bytecode@.len(), |k: int| None::<int>);
        assert(opt_map_view(addr_map@) =~= init_map);
        let ghost target = pass_scan(bytecode@, 0, Seq::empty(), init_map);
        while i < bytecode.len()
            invariant
                i <= bytecode@.len(),
                result.len() <= i,
                addr_map.len() == bytecode@.len(),
                pass_scan(bytecode@, i as int, result@, opt_map_view(addr_map@)) == target,
            decreases bytecode@.len() - i,
        {
            let start = result.len();
            let optimized = self.try_opt(bytecode, i);
            proof {
                lemma_try_opt_ok(bytecode@, i as int);
            }
            if let Some((replacement, skip)) = optimized {
                let ghost amap0 = opt_map_view(addr_map@);
                let mut j: usize = 0;
                while j < skip
                    invariant
                        j <= skip,
                        i + skip <= bytecode@.len(),
                        start <= i,
                        addr_map.len() == bytecode@.len(),
                        start == result.len(),
                        opt_map_view(addr_map@) == Seq::new(
                            amap0.len(),
                            |k: int|
                                if i <= k < i + j {
                                    if k - i < replacement@.len() {
                                        Some(start + (k - i))
                                    } else {
                                        None
                                    }
                                } else {
                                    amap0[k]
                                },
                        ),
                    decreases skip - j,
                {
                    let v = if j < replacement.len() {
                        Some(start + j)
                    } else {
                        None
                    };
                    let ghost before = opt_map_view(addr_map@);
                    let ghost raw = addr_map@;
                    addr_map.set(i + j, v);
                    proof {
                        lemma_opt_map_update(raw, (i + j) as int, v);
                        assert forall|k: int| 0 <= k < amap0.len() implies #[trigger] opt_map_view(addr_map@)[k] == (
                            if i <= k < i + (j + 1) {
                                if k - i < replacement@.len() {
                                    Some(start + (k - i))
                                } else {
                                    None
                                }
                            } else {
                                amap0[k]
                            }) by {
                            if k != i + j {
                                assert(opt_map_view(addr_map@)[k] == before[k]);
                            }
                        }
                        assert(opt_map_view(addr_map@) =~= Seq::new(
                            amap0.len(),
                            |k: int|
                                if i <= k < i + (j + 1) {
                                    if k - i < replacement@.len() {
                                        Some(start + (k - i))
                                    } else {
                                        None
                                    }
                                } else {
                                    amap0[k]
                                },
                        ));
                    }
                    j += 1;
                }
                assert(opt_map_view(addr_map@) =~= fill_map(
                    amap0,
                    i as int,
                    start as int,
                    replacement@.len() as int,
                    skip as int,
                ));
                let ghost out0 = result@;
                let mut k: usize = 0;
                while k < replacement.len()
                    invariant
                        k <= replacement.len(),
                        result@ == out0 + replacement@.subrange(0, k as int),
                    decreases replacement.len() - k,
                {
                    result.push(replacement[k]);
                    assert(replacement@.subrange(0, k + 1) =~= replacement@.subrange(0, k as int).push(
                        replacement[k as int],
                    ));
                    k += 1;
                }
                assert(replacement@.subrange(0, replacement.len() as int) =~= replacement@);
                i += skip;
            } else {
                let ghost amap0 = opt_map_view(addr_map@);
                proof {
                    lemma_opt_map_update(addr_map@, i as int, Some(start));
                }
                addr_map.set(i, Some(start));
                assert(opt_map_view(addr_map@) =~= amap0.update(i as int, Some(start as int)));
                result.push(bytecode[i]);
                i += 1;
            }
        }
        self.adjust_jumps(&mut result, &addr_map);
        result
    }

    fn adjust_jumps(&self, code: &mut Vec<u8>, map: &Vec<Option<usize>>)
        ensures
            final(code)@ == adjust_scan(old(code)@, opt_map_view(map@), 0),
    {
        let ghost target = adjust_scan(code@, opt_map_view(map@), 0);
        let mut i: usize = 0;
        while i < code.len()
            invariant
                i <= code.len(),
                adjust_scan(code@, opt_map_view(map@), i as int) == target,
            decreases code.len() - i,
        {
            let opcode = code[i];
            let ghost c0 = code@;
            // Instructions with 1-byte operand that is a jump/call address
            if opcode == 0x40 || opcode == 0x41 || opcode == 0x60 {
                if i + 1 < code.len() {
                    let old_target = code[i + 1] as usize;
                    if old_target < map.len() {
                        if let Some(new_target) = map[old_target] {
                            assert(opt_map_view(map@)[old_target as int] == Some(new_target as int));
                            code.set(i + 1, new_target as u8);
                            assert(code@ == c0.update(i + 1, opt_map_view(map@)[c0[i + 1] as int]->0 as u8));
                        } else {
                            assert(opt_map_view(map@)[old_target as int] is None);
                        }
                    }
                    assert(adjust_scan(c0, opt_map_view(map@), i as int) == adjust_scan(code@, opt_map_view(map@), i + 2));
                    i += 2;
                } else {
                    assert(adjust_scan(c0, opt_map_view(map@), i as int) == adjust_scan(code@, opt_map_view(map@), i + 2));
                    assert(adjust_scan(code@, opt_map_view(map@), i + 2) == code@);
                    i = code.len();
                }
            } else {
                // Skip operand for other 1-byte-operand instructions
                if opcode == 0x01 || opcode == 0x08 || opcode == 0x20 || opcode == 0x21 || opcode
                    == 0x50 {
                    if i + 1 < code.len() {
                        i += 2;
                    } else {
                        assert(adjust_scan(code@, opt_map_view(map@), i + 2) == code@);
                        i = code.len();
                    }
                } else {
                    i += 1;
                }
            }
        }
    }

    fn try_opt(&self, code: &[u8], i: usize) -> (r: Option<(Vec<u8>, usize)>)
        ensures
            match r {
                Some((rep, skip)) => spec_try_opt(code@, i as int) == Some((rep@, skip as int)),
                None => spec_try_opt(code@, i as int) is None,
            },
    {
        if i >= code.len() {
            return None;
        }
        let opcode = code[i];
        // Pattern: LOAD x, STORE x -> delete both (redundant load/store)
        if opcode == 0x20 && code.len() - i > 3 {
            // Guard: ensure code[i] is a LOAD opcode, not an operand byte.
            let is_operand = is_operand_at(code, i);
            if !is_operand {
                let slot = code[i + 1];
                if code[i + 2] == 0x21 && code[i + 3] == slot {
                    return Some((Vec::new(), 4));
                }
            }
        }
        // Pattern: PUSH 0, ADD -> delete all
        if self.match_push_op(code, i, 0, 0x02) {
            return Some((Vec::new(), 3));
        }
        // Pattern: PUSH 0, SUB -> delete all
        if self.match_push_op(code, i, 0, 0x03) {
            return Some((Vec::new(), 3));
        }
        // Pattern: PUSH 0, MUL -> PUSH 0
        if self.match_push_op(code, i, 0, 0x04) {
            let mut rep: Vec<u8> = Vec::new();
            rep.push(0x01);
            rep.push(0);
            assert(rep@ =~= seq![0x01u8, 0u8]);
            return Some((rep, 3));
        }
        // Pattern: PUSH 1, MUL -> delete all
        if self.match_push_op(code, i, 1, 0x04) {
            return Some((Vec::new(), 3));
        }
        // Pattern: PUSH 1, DIV -> delete all
        if self.match_push_op(code, i, 1, 0x05) {
            return Some((Vec::new(), 3));
        }
        // Pattern: PUSH a, PUSH b, OP -> PUSH result (constant folding)
        if let Some(result) = self.try_fold_constants(code, i) {
            return Some(result);
        }
        // Pattern: JMP to next instruction -> delete JMP
        if opcode == 0x40 && code.len() - i > 2 {
            let is_operand = is_operand_at(code, i);
            if !is_operand {
                let target = code[i + 1] as usize;
                if target == i + 2 {
                    return Some((Vec::new(), 2));
                }
            }
        }
        // Pattern: JMP addr where code[addr] is JMP addr2 -> redirect to addr2
        if opcode == 0x40 && code.len() - i > 1 {
            let is_operand = is_operand_at(code, i);
            if !is_operand {
                let target = code[i + 1] as usize;
                if target < code.len() - 1 && code[target] == 0x40 {
                    // Guard: ensure JMP at target is also a real opcode
                    let target_is_operand = is_operand_at(code, target);
                    if !target_is_operand {
                        let target2 = code[target + 1] as usize;
                        if target2 != target {
                            let mut rep: Vec<u8> = Vec::new();
                            rep.push(0x40);
                            rep.push(target2 as u8);
                            assert(rep@ =~= seq![0x40u8, code@[target + 1]]);
                            return Some((rep, 2));
                        }
                    }
                }
            }
        }
        // Pattern: Dead store: PUSH v, STORE x with no LOAD x before next STORE x
        if let Some(result) = self.try_dead_store(code, i) {
            return Some(result);
        }
        None
    }

    fn match_push_op(&self, code: &[u8], i: usize, val: u8, op: u8) -> (r: bool)
        ensures
            r == spec_match_push_op(code@, i as int, val, op),
    {
        if i >= code.len() || code[i] != 0x01 {
            return false;
        }
        // Guard: ensure code[i] is a PUSH opcode, not an operand byte.
        if i >= 1 {
            if has_operand(code[i - 1]) {
                return false;
            }
        }
        i + 1 < code.len() && code[i + 1] == val && i + 2 < code.len() && code[i + 2] == op
    }

    fn try_fold_constants(&self, code: &[u8], i: usize) -> (r: Option<(Vec<u8>, usize)>)
        ensures
            match r {
                Some((rep, skip)) => spec_fold_constants(code@, i as int) == Some((rep@, skip as int)),
                None => spec_fold_constants(code@, i as int) is None,
            },
    {
        if i >= code.len() || code.len() - i <= 4 {
            return None;
        }
        if code[i] != 0x01 || code[i + 2] != 0x01 {
            return None;
        }
        // Guard: ensure code[i] is a PUSH opcode, not an operand byte.
        if i >= 1 {
            let prev = code[i - 1];
            if has_operand(prev) {
                return None;
            }
        }
        let a: i32 = signed(code[i + 1]);
        let b: i32 = signed(code[i + 2 + 1]);
        let op = code[i + 4];
        let result: i32 = if op == 0x02 {
            a + b
        } else if op == 0x03 {
            a - b
        } else if op == 0x04 {
            proof {
                assert(-16384 <= a * b <= 16384) by (nonlinear_arith)
                    requires
                        -128 <= a <= 127,
                        -128 <= b <= 127,
                ;
            }
            a * b
        } else if op == 0x05 {
            if b != 0 {
                div_i32(a, b)
            } else {
                return None;
            }
        } else if op == 0x30 {
            if a == b { 1 } else { 0 }
        } else if op == 0x31 {
            if a < b { 1 } else { 0 }
        } else if op == 0x32 {
            if a > b { 1 } else { 0 }
        } else if op == 0x34 {
            if a <= b { 1 } else { 0 }
        } else if op == 0x35 {
            if a >= b { 1 } else { 0 }
        } else {
            return None;
        };
        if 0 <= result && result <= 255 {
            let mut rep: Vec<u8> = Vec::new();
            rep.push(0x01);
            rep.push(result as u8);
            assert(rep@ =~= seq![0x01u8, result as u8]);
            Some((rep, 5))
        } else {
            None
        }
    }

    /// Pattern: PUSH v, STORE x ... PUSH w, STORE x (same slot, no LOAD x between)
    /// The first PUSH+STORE is dead: value never read before being overwritten.
    fn try_dead_store(&self, code: &[u8], i: usize) -> (r: Option<(Vec<u8>, usize)>)
        ensures
            match r {
                Some((rep, skip)) => spec_dead_store(code@, i as int) == Some((rep@, skip as int)),
                None => spec_dead_store(code@, i as int) is None,
            },
    {
        if i >= code.len() || code[i] != 0x01 {
            return None;
        }
        // Guard: code[i] is a real PUSH opcode
        if is_operand_at(code, i) {
            return None;
        }
        if code.len() - i <= 3 || code[i + 2] != 0x21 {
            return None;
        }
        let slot = code[i + 3];
        // Scan forward from i+4 looking for next reference to `slot`
        let max_lookahead: usize = 32;
        let mut j = i + 4;
        while j < code.len() && (j - i) < max_lookahead
            invariant
                i + 4 <= j <= code.len(),
                i < code.len(),
                max_lookahead == 32,
                i + 3 < code@.len(),
                slot == code@[i + 3],
                code@[i as int] == 0x01,
                code@[i + 2] == 0x21,
                !follows_operand_opcode(code@, i as int),
                dead_store_scan(code@, i as int, slot, j as int) == dead_store_scan(
                    code@,
                    i as int,
                    slot,
                    i + 4,
                ),
            decreases code.len() - j,
        {
            let is_operand = is_operand_at(code, j);
            assert(dead_store_scan(code@, i as int, slot, j as int) == if follows_operand_opcode(code@, j as int) {
                dead_store_scan(code@, i as int, slot, j + 1)
            } else {
                let op = code@[j as int];
                if op == 0x20 && j + 1 < code@.len() && code@[j + 1] == slot {
                    false
                } else if op == 0x21 && j + 1 < code@.len() && code@[j + 1] == slot {
                    true
                } else if op == 0x60 || op == 0x61 || op == 0x40 || op == 0x41 {
                    false
                } else if op == 0x01 || op == 0x08 || op == 0x20 || op == 0x21 || op == 0x50 {
                    dead_store_scan(code@, i as int, slot, j + 2)
                } else {
                    dead_store_scan(code@, i as int, slot, j + 1)
                }
            });
            if is_operand {
                j += 1;
                continue;
            }
            let op = code[j];
            if op == 0x20 && j + 1 < code.len() && code[j + 1] == slot {
                return None;  // LOAD x: live
            }
            if op == 0x21 && j + 1 < code.len() && code[j + 1] == slot {
                // STORE x without intervening LOAD x: dead store, remove 4 bytes
                assert(dead_store_scan(code@, i as int, slot, i + 4));
                assert(spec_dead_store(code@, i as int) == Some((Seq::<u8>::empty(), 4int)));
                let rep: Vec<u8> = Vec::new();
                assert(rep@ =~= Seq::<u8>::empty());
                return Some((rep, 4));
            }
            if op == 0x60 || op == 0x61 {
                return None;  // CALL or RET: can't safely analyze
            }
            if op == 0x40 || op == 0x41 {
                return None;  // JMP or JMP_IF_FALSE: the value may be read where it leads
            }
            if op == 0x01 || op == 0x08 || op == 0x20 || op == 0x21 || op == 0x50 {
                if j + 1 < code.len() {
                    j += 2;
                } else {
                    j = code.len();
                }
            } else {
                j += 1;
            }
        }
        None
    }
}

fn signed(b: u8) -> (r: i32)
    ensures
        r == signed_byte(b),
        -128 <= r <= 127,
{
    if b < 128 {
        b as i32
    } else {
        b as i32 - 256
    }
}

fn div_i32(a: i32, b: i32) -> (r: i32)
    requires
        -128 <= a <= 127,
        -128 <= b <= 127,
        b != 0,
    ensures
        r == div_toward_zero(a as int, b as int),
{
    let ua: u32 = if a < 0 { (-a) as u32 } else { a as u32 };
    let ub: u32 = if b < 0 { (-b) as u32 } else { b as u32 };
    let q = (ua / ub) as i32;
    if (a >= 0) == (b > 0) {
        q
    } else {
        -q
    }
}

} // verus!
