//! The execution engine: an interpreter value owning the tape, the data
//! pointer, the program counter and the two byte buffers standing for the
//! input and output streams. Its dispatch loop is verified to follow the
//! abstract machine of [`crate::machine`] step by step.

use vstd::prelude::*;
use std::collections::HashMap;
use crate::machine::{
    balanced, depth, first_unmatched_close_at, has_unmatched_close, is_jump_map, is_match,
    is_close, is_open, is_running, lemma_match_close_unique, lemma_match_open_unique, match_close_of, match_open_of,
    runs_to, spec_step, state_after, unmatched_open_at, with_failure, MState,
};
use crate::resolve::{resolve, Error};

verus! {

broadcast use vstd::std_specs::hash::group_hash_axioms;

/// One run's worth of machine state. The tape is caller-allocated and
/// caller-sized; the engine never resizes it. The input buffer is consumed
/// byte by byte from `input_pos`; output bytes are appended to `output`.
/// After a run the caller inspects `memory` and `output` directly.
pub struct Interpreter {
    pub memory: Vec<u8>,
    pub data_pointer: usize,
    pub program_counter: usize,
    pub input: Vec<u8>,
    pub input_pos: usize,
    pub output: Vec<u8>,
}

impl View for Interpreter {
    type V = MState;

    /// The abstract machine state this interpreter value stands for.
    open spec fn view(&self) -> MState {
        MState {
            tape: self.memory@,
            dp: self.data_pointer as nat,
            pc: self.program_counter as nat,
            input: self.input@,
            in_pos: self.input_pos as nat,
            out: self.output@,
            failed: false,
        }
    }
}

impl Interpreter {
    /// A fresh interpreter over the given tape and input buffer: pointer and
    /// counter at zero, nothing consumed, nothing written.
    pub fn new(memory: Vec<u8>, input: Vec<u8>) -> (r: Interpreter)
        ensures
            r@ == (MState {
                tape: memory@,
                dp: 0,
                pc: 0,
                input: input@,
                in_pos: 0,
                out: Seq::<u8>::empty(),
                failed: false,
            }),
    {
        let r = Interpreter {
            memory,
            data_pointer: 0,
            program_counter: 0,
            input,
            input_pos: 0,
            output: Vec::new(),
        };
        proof {
            assert(r@ =~= (MState {
                tape: r.memory@,
                dp: 0,
                pc: 0,
                input: r.input@,
                in_pos: 0,
                out: Seq::<u8>::empty(),
                failed: false,
            }));
        }
        r
    }

    /// Resolves the brackets of `source` and, on success, executes it from
    /// the current program counter until the counter passes the end of the
    /// program. On a resolution error nothing executes and the state is
    /// untouched; on an out-of-range tape access the run stops at the
    /// failing opcode with every earlier effect, output included, left in
    /// place. The dispatch loop executes at most `u64::MAX` opcodes — a
    /// bound beyond any physically realizable run, there so that the loop
    /// provably terminates — and reports hitting it as an error.
    ///
    /// The contract follows the abstract machine: whatever is returned, the
    /// final fields are a state the machine reaches from the initial one.
    pub fn interpret(&mut self, source: &Vec<char>) -> (r: Result<(), Error>)
        ensures
            match r {
                Ok(()) => {
                    &&& balanced(source@)
                    &&& runs_to(source@, old(self)@, final(self)@)
                    &&& final(self)@.pc >= source@.len()
                },
                Err(e) => match e {
                    Error::UnmatchedClosingBracket { position } => {
                        &&& first_unmatched_close_at(source@, position as int)
                        &&& *final(self) == *old(self)
                    },
                    Error::UnmatchedOpeningBracket { positions } => {
                        &&& !has_unmatched_close(source@)
                        &&& depth(source@, source@.len() as int) > 0
                        &&& forall|a: int, b: int|
                            0 <= a < b < positions@.len() ==> positions@[a] < positions@[b]
                        &&& forall|p: usize|
                            positions@.contains(p) <==> unmatched_open_at(source@, p as int)
                        &&& *final(self) == *old(self)
                    },
                    Error::PointerOutOfBounds { program_counter, data_pointer } => {
                        &&& balanced(source@)
                        &&& runs_to(source@, old(self)@, with_failure(final(self)@))
                        &&& program_counter == final(self).program_counter
                        &&& data_pointer == final(self).data_pointer
                        &&& data_pointer >= final(self).memory@.len()
                    },
                    Error::StepLimitExceeded => {
                        &&& balanced(source@)
                        &&& final(self)@ == state_after(source@, old(self)@, u64::MAX as nat)
                        &&& is_running(source@, final(self)@)
                    },
                },
            },
            has_unmatched_close(source@) ==> (r matches Err(
                Error::UnmatchedClosingBracket { .. },
            )),
            !has_unmatched_close(source@) && !balanced(source@) ==> (r matches Err(
                Error::UnmatchedOpeningBracket { .. },
            )),
    {
        let table: HashMap<usize, usize> = match resolve(source) {
            Ok(t) => t,
            Err(e) => {
                return Err(e);
            },
        };
        let ghost s = source@;
        let ghost st0 = self@;
        let n: usize = source.len();
        let mut steps: u64 = 0;

        while self.program_counter < n && steps < u64::MAX
            invariant
                s == source@,
                n == s.len(),
                balanced(s),
                is_jump_map(s, table@),
                st0 == old(self)@,
                steps <= u64::MAX,
                self@ == state_after(s, st0, steps as nat),
                !state_after(s, st0, steps as nat).failed,
            decreases u64::MAX - steps,
        {
            let ghost cur = state_after(s, st0, steps as nat);
            proof {
                assert(is_running(s, cur));
                assert(state_after(s, st0, (steps + 1) as nat) == spec_step(s, cur));
            }
            let c = source[self.program_counter];
            if c == '>' {
                self.data_pointer = self.data_pointer.wrapping_add(1);
            } else if c == '<' {
                self.data_pointer = self.data_pointer.wrapping_sub(1);
            } else if c == '+' {
                if self.data_pointer < self.memory.len() {
                    let v = self.memory[self.data_pointer];
                    self.memory.set(self.data_pointer, v.wrapping_add(1));
                } else {
                    proof {
                        assert(with_failure(cur) == state_after(s, st0, (steps + 1) as nat));
                        assert(runs_to(s, st0, with_failure(self@)));
                    }
                    return Err(Error::PointerOutOfBounds {
                        program_counter: self.program_counter,
                        data_pointer: self.data_pointer,
                    });
                }
            } else if c == '-' {
                if self.data_pointer < self.memory.len() {
                    let v = self.memory[self.data_pointer];
                    self.memory.set(self.data_pointer, v.wrapping_sub(1));
                } else {
                    proof {
                        assert(with_failure(cur) == state_after(s, st0, (steps + 1) as nat));
                        assert(runs_to(s, st0, with_failure(self@)));
                    }
                    return Err(Error::PointerOutOfBounds {
                        program_counter: self.program_counter,
                        data_pointer: self.data_pointer,
                    });
                }
            } else if c == '.' {
                if self.data_pointer < self.memory.len() {
                    let v = self.memory[self.data_pointer];
                    self.output.push(v);
                } else {
                    proof {
                        assert(with_failure(cur) == state_after(s, st0, (steps + 1) as nat));
                        assert(runs_to(s, st0, with_failure(self@)));
                    }
                    return Err(Error::PointerOutOfBounds {
                        program_counter: self.program_counter,
                        data_pointer: self.data_pointer,
                    });
                }
            } else if c == ',' {
                if self.data_pointer < self.memory.len() {
                    if self.input_pos < self.input.len() {
                        let b = self.input[self.input_pos];
                        self.memory.set(self.data_pointer, b);
                        self.input_pos = self.input_pos + 1;
                    }
                } else {
                    proof {
                        assert(with_failure(cur) == state_after(s, st0, (steps + 1) as nat));
                        assert(runs_to(s, st0, with_failure(self@)));
                    }
                    return Err(Error::PointerOutOfBounds {
                        program_counter: self.program_counter,
                        data_pointer: self.data_pointer,
                    });
                }
            } else if c == '[' {
                if self.data_pointer < self.memory.len() {
                    if self.memory[self.data_pointer] == 0 {
                        proof {
                            assert(is_open(s, self.program_counter as int));
                            assert(table@.contains_key(self.program_counter));
                        }
                        let target: usize;
                        match table.get(&self.program_counter) {
                            Some(j) => {
                                target = *j;
                            },
                            None => {
                                proof {
                                    assert(false);
                                }
                                target = 0;
                            },
                        }
                        proof {
                            assert(is_match(s, cur.pc as int, target as int));
                            lemma_match_close_unique(
                                s,
                                cur.pc as int,
                                target as int,
                                match_close_of(s, cur.pc as int),
                            );
                            assert(target < n);
                        }
                        self.program_counter = target;
                    }
                } else {
                    proof {
                        assert(with_failure(cur) == state_after(s, st0, (steps + 1) as nat));
                        assert(runs_to(s, st0, with_failure(self@)));
                    }
                    return Err(Error::PointerOutOfBounds {
                        program_counter: self.program_counter,
                        data_pointer: self.data_pointer,
                    });
                }
            } else if c == ']' {
                if self.data_pointer < self.memory.len() {
                    if self.memory[self.data_pointer] != 0 {
                        proof {
                            assert(is_close(s, self.program_counter as int));
                            assert(table@.contains_key(self.program_counter));
                        }
                        let target: usize;
                        match table.get(&self.program_counter) {
                            Some(j) => {
                                target = *j;
                            },
                            None => {
                                proof {
                                    assert(false);
                                }
                                target = 0;
                            },
                        }
                        proof {
                            assert(is_match(s, target as int, cur.pc as int));
                            lemma_match_open_unique(
                                s,
                                target as int,
                                match_open_of(s, cur.pc as int),
                                cur.pc as int,
                            );
                            assert(target < n);
                        }
                        self.program_counter = target;
                    }
                } else {
                    proof {
                        assert(with_failure(cur) == state_after(s, st0, (steps + 1) as nat));
                        assert(runs_to(s, st0, with_failure(self@)));
                    }
                    return Err(Error::PointerOutOfBounds {
                        program_counter: self.program_counter,
                        data_pointer: self.data_pointer,
                    });
                }
            }
            self.program_counter = self.program_counter + 1;
            steps = steps + 1;
            proof {
                assert(self@ =~= spec_step(s, cur));
                assert(self@ == state_after(s, st0, steps as nat));
            }
        }
        if self.program_counter >= n {
            proof {
                assert(runs_to(s, st0, self@));
            }
            Ok(())
        } else {
            Err(Error::StepLimitExceeded)
        }
    }
}

} // verus!
