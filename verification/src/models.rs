//! Predefined models for certain programming languages.
//!
//! Currently only brainfuck is supported.

use crate::model::Model;
use vstd::prelude::*;
use vstd::string::StringExecFns;

verus! {

/// The characters that move the cursor `from` one cell address `to`
/// another: a run of `>` going up, a run of `<` going down.
pub open spec fn shift_chars(from: int, to: int) -> Seq<char> {
    if to >= from {
        repeat_char('>', (to - from) as nat)
    } else {
        repeat_char('<', (from - to) as nat)
    }
}

/// `k` copies of one character.
pub open spec fn repeat_char(c: char, k: nat) -> Seq<char>
    decreases k,
{
    if k == 0 {
        Seq::empty()
    } else {
        repeat_char(c, (k - 1) as nat).push(c)
    }
}

/// The body of a brainfuck move loop after its `[-`, with the cursor at
/// `ptr`: visit each destination in turn and increment it, then return to
/// the source `cell` and close the loop.
pub open spec fn mov_tail(ptr: int, cell: int, to: Seq<int>) -> Seq<char>
    decreases to.len(),
{
    if to.len() == 0 {
        shift_chars(ptr, cell) + seq![']']
    } else {
        shift_chars(ptr, to[0]) + seq!['+'] + mov_tail(to[0], cell, to.skip(1))
    }
}

/// The abstract state of the brainfuck model: the program emitted so far
/// and the cell the cursor stands on.
pub struct BrainfuckState {
    /// The program text emitted so far.
    pub program: Seq<char>,
    /// The cell address the cursor stands on.
    pub ptr: int,
}

/// This crate was originally created for brainfuck.
///
/// This brainfuck [`Model`] is included for backwards compatibility and
/// demonstration purposes.
pub struct Brainfuck {
    program: String,
    ptr: isize,
}

impl View for Brainfuck {
    type V = BrainfuckState;

    closed spec fn view(&self) -> BrainfuckState {
        BrainfuckState { program: self.program@, ptr: self.ptr as int }
    }
}

impl Brainfuck {
    /// Creates a new model, with the cursor at cell zero and no program.
    pub fn new() -> (r: Self)
        ensures
            r@.program == Seq::<char>::empty(),
            r@.ptr == 0,
    {
        Self { program: String::new(), ptr: 0 }
    }

    /// Walk the cursor to `cell`, emitting one `<` or `>` per step.
    fn shift_to(&mut self, cell: isize)
        ensures
            final(self)@.program == old(self)@.program + shift_chars(
                old(self)@.ptr,
                cell as int,
            ),
            final(self)@.ptr == cell as int,
    {
        let ghost pre = self@.program;
        let ghost from = self@.ptr;
        let diff: i128 = cell as i128 - self.ptr as i128;
        if diff >= 0 {
            let mut k: i128 = 0;
            while k < diff
                invariant
                    0 <= k <= diff,
                    diff == cell as i128 - from,
                    self.ptr as int == from,
                    cell as int == from + diff,
                    self@.program == pre + repeat_char('>', k as nat),
                decreases diff - k,
            {
                self.program.append(">");
                proof {
                    reveal_strlit(">");
                    assert(">"@ =~= seq!['>']);
                    assert(pre + repeat_char('>', k as nat) + ">"@ =~= pre + repeat_char(
                        '>',
                        (k + 1) as nat,
                    ));
                }
                k = k + 1;
            }
            proof {
                assert(self@.program =~= pre + shift_chars(from, cell as int));
            }
        } else {
            let mut k: i128 = 0;
            while k < -diff
                invariant
                    0 <= k <= -diff,
                    diff == cell as i128 - from,
                    diff < 0,
                    self.ptr as int == from,
                    cell as int == from + diff,
                    self@.program == pre + repeat_char('<', k as nat),
                decreases -diff - k,
            {
                self.program.append("<");
                proof {
                    reveal_strlit("<");
                    assert("<"@ =~= seq!['<']);
                    assert(pre + repeat_char('<', k as nat) + "<"@ =~= pre + repeat_char(
                        '<',
                        (k + 1) as nat,
                    ));
                }
                k = k + 1;
            }
            proof {
                assert(self@.program =~= pre + shift_chars(from, cell as int));
            }
        }
        self.ptr = cell;
    }
}

impl Default for Brainfuck {
    /// The same state [`Brainfuck::new`] gives.
    fn default() -> (r: Self)
        ensures
            r@.program == Seq::<char>::empty(),
            r@.ptr == 0,
    {
        Self::new()
    }
}

impl Model for Brainfuck {
    type Output = String;

    open spec fn spec_start(pre: BrainfuckState, cell: int) -> BrainfuckState {
        BrainfuckState { program: pre.program, ptr: cell }
    }

    open spec fn spec_clear(pre: BrainfuckState, cell: int) -> BrainfuckState {
        BrainfuckState {
            program: pre.program + shift_chars(pre.ptr, cell) + seq!['[', '-', ']'],
            ptr: cell,
        }
    }

    open spec fn spec_mov(pre: BrainfuckState, cell: int, to: Seq<int>) -> BrainfuckState {
        BrainfuckState {
            program: pre.program + shift_chars(pre.ptr, cell) + seq!['[', '-'] + mov_tail(
                cell,
                cell,
                to,
            ),
            ptr: cell,
        }
    }

    open spec fn spec_top(pre: BrainfuckState, cell: int) -> BrainfuckState {
        BrainfuckState { program: pre.program + shift_chars(pre.ptr, cell), ptr: cell }
    }

    open spec fn spec_finish(pre: BrainfuckState) -> Seq<char> {
        pre.program
    }

    fn start(&mut self, cell: isize) {
        self.ptr = cell;
    }

    fn clear(&mut self, cell: isize) {
        self.shift_to(cell);
        self.program.append("[-]");
        proof {
            reveal_strlit("[-]");
            assert("[-]"@ =~= seq!['[', '-', ']']);
            assert(self@ == Self::spec_clear(old(self)@, cell as int)) by {
                assert(self@.program =~= Self::spec_clear(old(self)@, cell as int).program);
            };
        }
    }

    fn mov(&mut self, cell: isize, to: Vec<isize>) {
        let ghost pre = old(self)@;
        let ghost tv = to@.map_values(|x: isize| x as int);
        self.shift_to(cell);
        self.program.append("[-");
        proof {
            reveal_strlit("[-");
            assert("[-"@ =~= seq!['[', '-']);
        }
        let ghost opened = pre.program + shift_chars(pre.ptr, cell as int) + seq!['[', '-'];
        proof {
            assert(self@.program =~= opened);
            assert(tv.skip(0) =~= tv);
        }
        let n = to.len();
        let mut k: usize = 0;
        while k < n
            invariant
                n == to.len(),
                k <= n,
                tv == to@.map_values(|x: isize| x as int),
                self@.ptr == if k == 0 {
                    cell as int
                } else {
                    tv[k as int - 1]
                },
                opened + mov_tail(cell as int, cell as int, tv) == self@.program + mov_tail(
                    self@.ptr,
                    cell as int,
                    tv.skip(k as int),
                ),
            decreases n - k,
        {
            let ghost before = self@;
            self.shift_to(to[k]);
            self.program.append("+");
            proof {
                reveal_strlit("+");
                assert("+"@ =~= seq!['+']);
                assert(tv.skip(k as int)[0] == tv[k as int]);
                assert(tv.skip(k as int).skip(1) =~= tv.skip(k as int + 1));
                assert(self@.program =~= before.program + shift_chars(
                    before.ptr,
                    tv[k as int],
                ) + seq!['+']);
                assert(opened + mov_tail(cell as int, cell as int, tv) =~= self@.program
                    + mov_tail(self@.ptr, cell as int, tv.skip(k as int + 1)));
            }
            k = k + 1;
        }
        let ghost before = self@;
        self.shift_to(cell);
        self.program.append("]");
        proof {
            reveal_strlit("]");
            assert("]"@ =~= seq![']']);
            assert(tv.skip(n as int) =~= Seq::<int>::empty());
            assert(self@.program =~= before.program + shift_chars(before.ptr, cell as int)
                + seq![']']);
            assert(self@.program =~= opened + mov_tail(cell as int, cell as int, tv));
            assert(self@ == Self::spec_mov(pre, cell as int, tv)) by {
                assert(self@.program =~= Self::spec_mov(pre, cell as int, tv).program);
            };
        }
    }

    fn top(&mut self, cell: isize) {
        self.shift_to(cell);
        proof {
            assert(self@.program =~= Self::spec_top(old(self)@, cell as int).program);
        }
    }

    fn finish(self) -> (out: String) {
        self.program
    }
}

} // verus!
