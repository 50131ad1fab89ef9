//! The bracket resolver: a single left-to-right pass over the program that
//! pairs every opening bracket with its matching closing bracket, producing
//! the bidirectional jump table the engine executes against, or the exact
//! positions of the unmatched brackets.

use vstd::prelude::*;
use std::collections::HashMap;
use crate::machine::{
    balanced, bracket_step, depth, first_unmatched_close_at, has_unmatched_close, is_bracket,
    is_close, is_jump_map, is_match, is_open, unmatched_close_at, unmatched_open_at,
};

verus! {

broadcast use vstd::std_specs::hash::group_hash_axioms;

/// Why a run stopped. The first two are found while resolving brackets,
/// before any opcode executes; the last two stop the dispatch loop itself.
#[derive(Debug)]
pub enum Error {
    /// A closing bracket with no preceding unmatched opening bracket, at
    /// this position in the program.
    UnmatchedClosingBracket { position: usize },
    /// Opening brackets never closed again, every one of them, outermost
    /// first.
    UnmatchedOpeningBracket { positions: Vec<usize> },
    /// An opcode read or wrote the cell under the data pointer while the
    /// pointer sat outside the tape.
    PointerOutOfBounds { program_counter: usize, data_pointer: usize },
    /// The dispatch loop executed its documented maximum number of opcodes
    /// without the program halting. The bound is far beyond any physically
    /// realizable run; it exists so that the loop provably terminates.
    StepLimitExceeded,
}

/// Builds the jump table for `source` in one pass, keeping a stack of the
/// opening brackets not yet closed. On success the table maps every bracket
/// to its match, in both directions. A closing bracket that finds the stack
/// empty stops the scan at once; opening brackets still on the stack at the
/// end are reported together, outermost first.
pub fn resolve(source: &Vec<char>) -> (r: Result<HashMap<usize, usize>, Error>)
    ensures
        (r is Ok) <==> balanced(source@),
        match r {
            Ok(table) => is_jump_map(source@, table@),
            Err(e) => match e {
                Error::UnmatchedClosingBracket { position } => first_unmatched_close_at(
                    source@,
                    position as int,
                ),
                Error::UnmatchedOpeningBracket { positions } => {
                    &&& !has_unmatched_close(source@)
                    &&& depth(source@, source@.len() as int) > 0
                    &&& forall|a: int, b: int|
                        0 <= a < b < positions@.len() ==> positions@[a] < positions@[b]
                    &&& forall|p: usize|
                        positions@.contains(p) <==> unmatched_open_at(source@, p as int)
                },
                _ => false,
            },
        },
        has_unmatched_close(source@) ==> (r matches Err(Error::UnmatchedClosingBracket { .. })),
        !has_unmatched_close(source@) && !balanced(source@) ==> (r matches Err(
            Error::UnmatchedOpeningBracket { .. },
        )),
{
    let ghost s = source@;
    let n: usize = source.len();
    let mut table: HashMap<usize, usize> = HashMap::new();
    let mut stack: Vec<usize> = Vec::new();
    let mut i: usize = 0;

    while i < n
        invariant
            s == source@,
            n == s.len(),
            i <= n,
            stack@.len() == depth(s, i as int),
            forall|k: int|
                0 <= k < stack@.len() ==> (#[trigger] stack@[k]) < i && is_open(
                    s,
                    stack@[k] as int,
                ) && depth(s, stack@[k] as int) == k,
            forall|a: int, b: int| 0 <= a < b < stack@.len() ==> stack@[a] < stack@[b],
            forall|k: int, m: int|
                #![trigger stack@[k], depth(s, m)]
                0 <= k < stack@.len() && stack@[k] < m && m <= i ==> depth(s, m) > k,
            forall|j: int| 0 <= j < i ==> !unmatched_close_at(s, j),
            forall|k: int| 0 <= k <= i ==> #[trigger] depth(s, k) >= 0,
            forall|p: usize|
                #![trigger table@.contains_key(p)]
                #![trigger stack@.contains(p)]
                is_open(s, p as int) && p < i && !stack@.contains(p) ==> table@.contains_key(p)
                    && is_match(s, p as int, table@[p] as int),
            forall|q: usize|
                #[trigger] is_close(s, q as int) && q < i ==> table@.contains_key(q) && is_match(
                    s,
                    table@[q] as int,
                    q as int,
                ),
            forall|k: usize| #[trigger] table@.contains_key(k) ==> k < i && is_bracket(s, k as int),
        decreases n - i,
    {
        let c = source[i];
        proof {
            assert(depth(s, i as int + 1) == depth(s, i as int) + bracket_step(s[i as int]));
        }
        if c == '[' {
            let ghost stack0 = stack@;
            stack.push(i);
            proof {
                assert forall|p: usize|
                    is_open(s, p as int) && p < i + 1 && !stack@.contains(p) implies #[trigger] table@.contains_key(p)
                    && is_match(s, p as int, table@[p] as int) by {
                    assert(stack@[stack@.len() - 1] == i);
                    assert(p != i);
                    if stack0.contains(p) {
                        let k = choose|k: int| 0 <= k < stack0.len() && stack0[k] == p;
                        assert(stack@[k] == p);
                    }
                    assert(!stack0.contains(p));
                }
            }
        } else if c == ']' {
            if stack.len() == 0 {
                proof {
                    assert(unmatched_close_at(s, i as int));
                    assert(depth(s, i as int + 1) == -1);
                    assert(!balanced(s));
                }
                return Err(Error::UnmatchedClosingBracket { position: i });
            } else {
                let ghost stack0 = stack@;
                let ghost table0 = table@;
                let opening = stack.pop().unwrap();
                proof {
                    let d = stack@.len() as int;
                    assert(depth(s, opening as int) == d);
                    assert(is_match(s, opening as int, i as int)) by {
                        assert forall|k: int| opening < k <= i implies #[trigger] depth(s, k)
                            > d by {
                            if k <= i {
                                assert(depth(s, k) > d);
                            }
                        }
                    }
                }
                table.insert(opening, i);
                table.insert(i, opening);
                proof {
                    assert(stack@ == stack0.drop_last());
                    assert forall|p: usize|
                        is_open(s, p as int) && p < i + 1 && !stack@.contains(p) implies #[trigger] table@.contains_key(p)
                        && is_match(s, p as int, table@[p] as int) by {
                        assert(p != i);
                        if p == opening {
                            assert(table@.contains_key(p));
                            assert(table@[p] == i);
                        } else {
                            if stack0.contains(p) {
                                let k = choose|k: int|
                                    0 <= k < stack0.len() && stack0[k] == p;
                                assert(k < stack0.len() - 1);
                                assert(stack@[k] == p);
                            }
                            assert(!stack0.contains(p));
                            assert(table0.contains_key(p) && is_match(
                                s,
                                p as int,
                                table0[p] as int,
                            ));
                            assert(table@[p] == table0[p]);
                        }
                    }
                }
            }
        }
        i = i + 1;
    }
    if stack.len() > 0 {
        proof {
            assert(depth(s, n as int) == stack@.len() as int);
            assert(!balanced(s));
            assert(!has_unmatched_close(s)) by {
                assert forall|j: int| !unmatched_close_at(s, j) by {
                    if 0 <= j < n {
                        assert(!unmatched_close_at(s, j));
                    }
                }
            }
            assert forall|p: usize| stack@.contains(p) <==> unmatched_open_at(
                s,
                p as int,
            ) by {
                if stack@.contains(p) {
                    let k = choose|k: int| 0 <= k < stack@.len() && stack@[k] == p;
                    assert(depth(s, p as int) == k);
                    assert forall|m: int| p < m <= s.len() implies #[trigger] depth(s, m) > depth(
                        s,
                        p as int,
                    ) by {
                        assert(depth(s, m) > k);
                    }
                    assert(unmatched_open_at(s, p as int));
                }
                if unmatched_open_at(s, p as int) && !stack@.contains(p) {
                    // an opening bracket missing from the stack was matched
                    // in the table, so the depth returns to its level right
                    // after its closing bracket
                    assert(table@.contains_key(p) && is_match(s, p as int, table@[p] as int));
                    let j = table@[p] as int;
                    assert(depth(s, j + 1) == depth(s, j) + bracket_step(s[j]));
                    assert(depth(s, j + 1) == depth(s, p as int));
                    assert(depth(s, j + 1) > depth(s, p as int));
                }
            }
        }
        return Err(Error::UnmatchedOpeningBracket { positions: stack });
    }
    proof {
        assert(balanced(s));
        assert(is_jump_map(s, table@)) by {
            assert forall|p: usize| #[trigger] is_open(s, p as int) implies table@.contains_key(p)
                && is_match(s, p as int, table@[p] as int) by {
                assert(!stack@.contains(p));
            }
        }
    }
    Ok(table)
}

} // verus!
