//! The interface between the solver's instructions and a target machine.

use crate::solve::SpecInstr;
use vstd::prelude::*;

verus! {

/// The assumed model of computation.
///
/// A model turns the solver's instructions into a program for some target
/// machine.  Its abstract state is its [`View`]; the spec functions state
/// each method's effect on that state, so a caller of [`crate::generate`]
/// knows exactly what program comes out.
pub trait Model: View + Sized {
    /// The final program output type.
    type Output: View;

    /// The abstract effect of [`Model::start`].
    spec fn spec_start(pre: Self::V, cell: int) -> Self::V;

    /// The abstract effect of [`Model::clear`].
    spec fn spec_clear(pre: Self::V, cell: int) -> Self::V;

    /// The abstract effect of [`Model::mov`].
    spec fn spec_mov(pre: Self::V, cell: int, to: Seq<int>) -> Self::V;

    /// The abstract effect of [`Model::top`].
    spec fn spec_top(pre: Self::V, cell: int) -> Self::V;

    /// The abstract value of the output [`Model::finish`] returns.
    spec fn spec_finish(pre: Self::V) -> <Self::Output as View>::V;

    /// Sets the top of the stack to a given index.
    ///
    /// This call generates no operation: it only records the starting state.
    fn start(&mut self, cell: isize)
        ensures
            final(self)@ == Self::spec_start(old(self)@, cell as int),
    ;

    /// Clears a cell to 0.
    fn clear(&mut self, cell: isize)
        ensures
            final(self)@ == Self::spec_clear(old(self)@, cell as int),
    ;

    /// Clears the data in a cell and copies it to a list of other cells.
    fn mov(&mut self, cell: isize, to: Vec<isize>)
        ensures
            final(self)@ == Self::spec_mov(
                old(self)@,
                cell as int,
                to@.map_values(|x: isize| x as int),
            ),
    ;

    /// Changes the top of the stack to a given index.
    fn top(&mut self, cell: isize)
        ensures
            final(self)@ == Self::spec_top(old(self)@, cell as int),
    ;

    /// Returns the final program output.
    fn finish(self) -> (out: Self::Output)
        ensures
            out@ == Self::spec_finish(self@),
    ;
}

/// One instruction's effect on a model's abstract state.
pub open spec fn model_step<M: Model>(pre: M::V, instr: SpecInstr) -> M::V {
    match instr {
        SpecInstr::Clear { cell } => M::spec_clear(pre, cell),
        SpecInstr::Mov { cell, to } => M::spec_mov(pre, cell, to),
        SpecInstr::Start { cell } => M::spec_start(pre, cell),
        SpecInstr::Top { cell } => M::spec_top(pre, cell),
    }
}

/// The abstract state a model reaches after consuming a sequence of
/// instructions.
pub open spec fn fold_model<M: Model>(pre: M::V, prog: Seq<SpecInstr>) -> M::V
    decreases prog.len(),
{
    if prog.len() == 0 {
        pre
    } else {
        fold_model::<M>(model_step::<M>(pre, prog[0]), prog.skip(1))
    }
}

/// Folding one more instruction applies it to the folded state.
pub proof fn lemma_fold_model_push<M: Model>(pre: M::V, prog: Seq<SpecInstr>, instr: SpecInstr)
    ensures
        fold_model::<M>(pre, prog.push(instr)) == model_step::<M>(
            fold_model::<M>(pre, prog),
            instr,
        ),
    decreases prog.len(),
{
    if prog.len() == 0 {
        assert(prog.push(instr)[0] == instr);
        assert(prog.push(instr).skip(1) =~= Seq::<SpecInstr>::empty());
        assert(fold_model::<M>(model_step::<M>(pre, instr), Seq::empty())
            == model_step::<M>(pre, instr));
        assert(fold_model::<M>(pre, prog) == pre);
    } else {
        assert(prog.push(instr)[0] == prog[0]);
        assert(prog.push(instr).skip(1) =~= prog.skip(1).push(instr));
        lemma_fold_model_push::<M>(model_step::<M>(pre, prog[0]), prog.skip(1), instr);
    }
}

} // verus!
