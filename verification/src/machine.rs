//! The mathematical model of the language: bracket nesting depth, the
//! matching relation between brackets, and a step-indexed abstract machine
//! whose transitions define what one executed opcode does. The executable
//! resolver and engine are specified and verified against this model.

use vstd::prelude::*;

verus! {

/// Contribution of one character to the bracket nesting depth.
pub open spec fn bracket_step(c: char) -> int {
    if c == '[' {
        1
    } else if c == ']' {
        -1
    } else {
        0
    }
}

/// Bracket nesting depth just before position `n`: the number of opening
/// brackets minus the number of closing brackets among the first `n`
/// characters of the program.
pub open spec fn depth(s: Seq<char>, n: int) -> int
    decreases n,
{
    if n <= 0 {
        0
    } else {
        depth(s, n - 1) + bracket_step(s[n - 1])
    }
}

/// Position `i` holds an opening bracket.
pub open spec fn is_open(s: Seq<char>, i: int) -> bool {
    0 <= i < s.len() && s[i] == '['
}

/// Position `j` holds a closing bracket.
pub open spec fn is_close(s: Seq<char>, j: int) -> bool {
    0 <= j < s.len() && s[j] == ']'
}

/// Position `i` holds a bracket of either kind.
pub open spec fn is_bracket(s: Seq<char>, i: int) -> bool {
    is_open(s, i) || is_close(s, i)
}

/// The opening bracket at `i` and the closing bracket at `j` form a matching
/// pair: `j` is the first place after `i` where the nesting depth returns to
/// the depth seen just before `i`. Strictly between them the depth stays
/// above it, and the closing bracket itself still sits one level above.
pub open spec fn is_match(s: Seq<char>, i: int, j: int) -> bool {
    &&& is_open(s, i)
    &&& is_close(s, j)
    &&& i < j
    &&& depth(s, j) == depth(s, i) + 1
    &&& forall|k: int| i < k <= j ==> #[trigger] depth(s, k) > depth(s, i)
}

/// Every bracket in the program is part of a matching pair: the depth never
/// dips below zero and ends at zero.
pub open spec fn balanced(s: Seq<char>) -> bool {
    &&& depth(s, s.len() as int) == 0
    &&& forall|k: int| 0 <= k <= s.len() ==> #[trigger] depth(s, k) >= 0
}

/// A closing bracket with no preceding unmatched opening bracket: every
/// opening bracket before it has already been closed again, so the depth
/// just before it is zero.
pub open spec fn unmatched_close_at(s: Seq<char>, j: int) -> bool {
    is_close(s, j) && depth(s, j) == 0
}

/// Some closing bracket in the program has no preceding unmatched opening
/// bracket.
pub open spec fn has_unmatched_close(s: Seq<char>) -> bool {
    exists|j: int| unmatched_close_at(s, j)
}

/// `j` is the first closing bracket with no preceding unmatched opening
/// bracket; a left-to-right scan fails exactly there.
pub open spec fn first_unmatched_close_at(s: Seq<char>, j: int) -> bool {
    &&& unmatched_close_at(s, j)
    &&& forall|k: int| 0 <= k < j ==> !unmatched_close_at(s, k)
}

/// An opening bracket that no later closing bracket ever closes: the depth
/// stays strictly above its level for the whole rest of the program.
pub open spec fn unmatched_open_at(s: Seq<char>, i: int) -> bool {
    &&& is_open(s, i)
    &&& forall|k: int| i < k <= s.len() ==> #[trigger] depth(s, k) > depth(s, i)
}

/// An opening bracket has at most one matching closing bracket.
pub proof fn lemma_match_close_unique(s: Seq<char>, i: int, j1: int, j2: int)
    requires
        is_match(s, i, j1),
        is_match(s, i, j2),
    ensures
        j1 == j2,
{
    if j1 < j2 {
        assert(depth(s, j1 + 1) == depth(s, j1) + bracket_step(s[j1]));
        assert(depth(s, j1 + 1) > depth(s, i));
    } else if j2 < j1 {
        assert(depth(s, j2 + 1) == depth(s, j2) + bracket_step(s[j2]));
        assert(depth(s, j2 + 1) > depth(s, i));
    }
}

/// A closing bracket has at most one matching opening bracket.
pub proof fn lemma_match_open_unique(s: Seq<char>, i1: int, i2: int, j: int)
    requires
        is_match(s, i1, j),
        is_match(s, i2, j),
    ensures
        i1 == i2,
{
    if i1 < i2 {
        assert(depth(s, i2) > depth(s, i1));
    } else if i2 < i1 {
        assert(depth(s, i1) > depth(s, i2));
    }
}

/// The matching closing bracket of the opening bracket at `i`, where one
/// exists.
pub open spec fn match_close_of(s: Seq<char>, i: int) -> int {
    choose|j: int| is_match(s, i, j)
}

/// The matching opening bracket of the closing bracket at `j`, where one
/// exists.
pub open spec fn match_open_of(s: Seq<char>, j: int) -> int {
    choose|i: int| is_match(s, i, j)
}

/// A correct jump table for program `s`: its keys are exactly the bracket
/// positions, each opening bracket maps to its matching closing bracket, and
/// each closing bracket maps back to its matching opening bracket.
pub open spec fn is_jump_map(s: Seq<char>, m: Map<usize, usize>) -> bool {
    &&& forall|k: usize| #[trigger] m.contains_key(k) ==> is_bracket(s, k as int)
    &&& forall|i: usize|
        #[trigger] is_open(s, i as int) ==> m.contains_key(i) && is_match(s, i as int, m[i] as int)
    &&& forall|j: usize|
        #[trigger] is_close(s, j as int) ==> m.contains_key(j) && is_match(
            s,
            m[j] as int,
            j as int,
        )
}

/// Law: a correct jump table is symmetric. Following a bracket's entry and
/// then that entry's own entry leads back to the bracket itself:
/// `m[m[i]] == i` for every bracket index `i`.
pub proof fn lemma_jump_table_symmetric(s: Seq<char>, m: Map<usize, usize>)
    requires
        is_jump_map(s, m),
    ensures
        forall|i: usize| #[trigger] m.contains_key(i) ==> m.contains_key(m[i]) && m[m[i]] == i,
{
    assert forall|i: usize| #[trigger] m.contains_key(i) implies m.contains_key(m[i]) && m[m[i]]
        == i by {
        if is_open(s, i as int) {
            let j = m[i];
            assert(is_match(s, i as int, j as int));
            assert(is_close(s, j as int));
            lemma_match_open_unique(s, i as int, m[j] as int, j as int);
        } else {
            assert(is_close(s, i as int));
            let i0 = m[i];
            assert(is_match(s, i0 as int, i as int));
            assert(is_open(s, i0 as int));
            lemma_match_close_unique(s, i0 as int, i as int, m[i0] as int);
        }
    }
}

/// The data pointer after one move right: wraparound addition over the full
/// unsigned pointer range.
pub open spec fn ptr_inc(dp: nat) -> nat {
    if dp == usize::MAX as nat {
        0
    } else {
        dp + 1
    }
}

/// The data pointer after one move left: wraparound subtraction over the
/// full unsigned pointer range.
pub open spec fn ptr_dec(dp: nat) -> nat {
    if dp == 0 {
        usize::MAX as nat
    } else {
        (dp - 1) as nat
    }
}

/// A cell after one increment: wraparound addition over the byte range.
pub open spec fn byte_inc(b: u8) -> u8 {
    if b == 255 {
        0
    } else {
        (b + 1) as u8
    }
}

/// A cell after one decrement: wraparound subtraction over the byte range.
pub open spec fn byte_dec(b: u8) -> u8 {
    if b == 0 {
        255
    } else {
        (b - 1) as u8
    }
}

/// One abstract machine state: the tape, the data pointer, the program
/// counter, the not-yet-consumed part of the input (everything from `in_pos`
/// on), the output produced so far, and whether the run has failed on an
/// out-of-range tape access.
#[verifier::ext_equal]
pub struct MState {
    pub tape: Seq<u8>,
    pub dp: nat,
    pub pc: nat,
    pub input: Seq<u8>,
    pub in_pos: nat,
    pub out: Seq<u8>,
    pub failed: bool,
}

/// The machine still has an opcode to execute: it has neither halted (counter
/// past the end of the program) nor failed.
pub open spec fn is_running(s: Seq<char>, st: MState) -> bool {
    !st.failed && st.pc < s.len()
}

/// The given state with the out-of-range failure recorded; everything else,
/// including the partial output, stays as it was.
pub open spec fn with_failure(st: MState) -> MState {
    MState { failed: true, ..st }
}

/// The effect of executing the single opcode under the program counter.
/// Every opcode advances the counter by one; a jump first rewrites it to the
/// matching bracket's own position, so the subsequent advance lands just
/// after that bracket. Opcodes that touch the current cell fail when the
/// pointer is outside the tape. A read past the end of input leaves the cell
/// unchanged. Characters other than the eight opcodes only advance the
/// counter.
pub open spec fn spec_step(s: Seq<char>, st: MState) -> MState
    recommends
        is_running(s, st),
{
    let c = s[st.pc as int];
    if c == '>' {
        MState { dp: ptr_inc(st.dp), pc: st.pc + 1, ..st }
    } else if c == '<' {
        MState { dp: ptr_dec(st.dp), pc: st.pc + 1, ..st }
    } else if c == '+' {
        if st.dp < st.tape.len() {
            MState {
                tape: st.tape.update(st.dp as int, byte_inc(st.tape[st.dp as int])),
                pc: st.pc + 1,
                ..st
            }
        } else {
            with_failure(st)
        }
    } else if c == '-' {
        if st.dp < st.tape.len() {
            MState {
                tape: st.tape.update(st.dp as int, byte_dec(st.tape[st.dp as int])),
                pc: st.pc + 1,
                ..st
            }
        } else {
            with_failure(st)
        }
    } else if c == '.' {
        if st.dp < st.tape.len() {
            MState { out: st.out.push(st.tape[st.dp as int]), pc: st.pc + 1, ..st }
        } else {
            with_failure(st)
        }
    } else if c == ',' {
        if st.dp < st.tape.len() {
            if st.in_pos < st.input.len() {
                MState {
                    tape: st.tape.update(st.dp as int, st.input[st.in_pos as int]),
                    in_pos: st.in_pos + 1,
                    pc: st.pc + 1,
                    ..st
                }
            } else {
                MState { pc: st.pc + 1, ..st }
            }
        } else {
            with_failure(st)
        }
    } else if c == '[' {
        if st.dp < st.tape.len() {
            if st.tape[st.dp as int] == 0 {
                MState { pc: (match_close_of(s, st.pc as int) + 1) as nat, ..st }
            } else {
                MState { pc: st.pc + 1, ..st }
            }
        } else {
            with_failure(st)
        }
    } else if c == ']' {
        if st.dp < st.tape.len() {
            if st.tape[st.dp as int] != 0 {
                MState { pc: (match_open_of(s, st.pc as int) + 1) as nat, ..st }
            } else {
                MState { pc: st.pc + 1, ..st }
            }
        } else {
            with_failure(st)
        }
    } else {
        MState { pc: st.pc + 1, ..st }
    }
}

/// The machine state after `n` steps from `st0`; once the machine halts or
/// fails, further steps change nothing.
pub open spec fn state_after(s: Seq<char>, st0: MState, n: nat) -> MState
    decreases n,
{
    if n == 0 {
        st0
    } else {
        let prev = state_after(s, st0, (n - 1) as nat);
        if is_running(s, prev) {
            spec_step(s, prev)
        } else {
            prev
        }
    }
}

/// The machine reaches state `st` from `st0` after some number of steps.
pub open spec fn runs_to(s: Seq<char>, st0: MState, st: MState) -> bool {
    exists|n: nat| st == state_after(s, st0, n)
}

/// Once the machine has halted or failed, its state never changes again.
pub proof fn lemma_not_running_stays(s: Seq<char>, st0: MState, n: nat, m: nat)
    requires
        !is_running(s, state_after(s, st0, n)),
        n <= m,
    ensures
        state_after(s, st0, m) == state_after(s, st0, n),
    decreases m,
{
    if m > n {
        lemma_not_running_stays(s, st0, n, (m - 1) as nat);
    }
}

/// Law: the machine is deterministic, so it reaches at most one state in
/// which it is no longer running. Any two halted-or-failed states reached
/// from the same start are the same state. This is what makes a contract of
/// the form "the final fields are a reachable halted state" exact: exactly
/// one such state exists.
pub proof fn lemma_final_state_unique(s: Seq<char>, st0: MState, st1: MState, st2: MState)
    requires
        runs_to(s, st0, st1),
        runs_to(s, st0, st2),
        !is_running(s, st1),
        !is_running(s, st2),
    ensures
        st1 == st2,
{
    let n1 = choose|n: nat| st1 == state_after(s, st0, n);
    let n2 = choose|n: nat| st2 == state_after(s, st0, n);
    if n1 <= n2 {
        lemma_not_running_stays(s, st0, n1, n2);
    } else {
        lemma_not_running_stays(s, st0, n2, n1);
    }
}

/// Law: cell arithmetic wraps over the byte range. A step on `+` or `-`
/// changes the current cell by one modulo 256; in particular incrementing a
/// cell holding 255 yields 0, and decrementing a cell holding 0 yields 255.
pub proof fn lemma_cell_arithmetic_wraps(s: Seq<char>, st: MState)
    requires
        is_running(s, st),
        st.dp < st.tape.len(),
    ensures
        s[st.pc as int] == '+' ==> spec_step(s, st).tape[st.dp as int] as int == (st.tape[st.dp as int] + 1) % 256,
        s[st.pc as int] == '-' ==> spec_step(s, st).tape[st.dp as int] as int == (st.tape[st.dp as int] - 1) % 256,
        s[st.pc as int] == '+' && st.tape[st.dp as int] == 255 ==> spec_step(s, st).tape[st.dp as int] == 0,
        s[st.pc as int] == '-' && st.tape[st.dp as int] == 0 ==> spec_step(s, st).tape[st.dp as int] == 255,
{
}

/// Law: pointer arithmetic wraps over the pointer's full addressable range,
/// analogously to cell arithmetic. A step on `>` or `<` changes the data
/// pointer by one modulo the pointer range; in particular moving right from
/// the largest address yields 0, and moving left from 0 yields the largest
/// address.
pub proof fn lemma_pointer_arithmetic_wraps(s: Seq<char>, st: MState)
    requires
        is_running(s, st),
        st.dp <= usize::MAX as nat,
    ensures
        s[st.pc as int] == '>' ==> spec_step(s, st).dp as int == (st.dp as int + 1) % (
        usize::MAX as int + 1),
        s[st.pc as int] == '<' ==> spec_step(s, st).dp as int == (st.dp as int - 1) % (
        usize::MAX as int + 1),
        s[st.pc as int] == '>' && st.dp == usize::MAX as nat ==> spec_step(s, st).dp == 0,
        s[st.pc as int] == '<' && st.dp == 0 ==> spec_step(s, st).dp == usize::MAX as nat,
{
    let w = usize::MAX as int + 1;
    if st.dp == usize::MAX as nat {
        vstd::arithmetic::div_mod::lemma_mod_self_0(w);
    } else {
        vstd::arithmetic::div_mod::lemma_small_mod(st.dp + 1, w as nat);
    }
    if st.dp == 0 {
        vstd::arithmetic::div_mod::lemma_mod_add_multiples_vanish(-1, w);
        vstd::arithmetic::div_mod::lemma_small_mod((w - 1) as nat, w as nat);
    } else {
        vstd::arithmetic::div_mod::lemma_small_mod((st.dp - 1) as nat, w as nat);
    }
}

/// Law: reading past the end of input is not an error. A step on `,` with
/// the input exhausted leaves the target cell — and everything else — exactly
/// as it was and only advances the program counter.
pub proof fn lemma_input_exhausted_reads_nothing(s: Seq<char>, st: MState)
    requires
        is_running(s, st),
        s[st.pc as int] == ',',
        st.dp < st.tape.len(),
        st.in_pos >= st.input.len(),
    ensures
        spec_step(s, st) == (MState { pc: st.pc + 1, ..st }),
{
}

} // verus!
