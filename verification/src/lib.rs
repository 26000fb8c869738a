//! Compile stack effect diagrams into programs for a tape machine.
//!
//! A stack effect diagram such as `a b -- b a` names the cells on top of a
//! stack and describes how they are to be rearranged.  [`parse`] turns the
//! textual notation into a [`StackEffectDiagram`]; [`solve`] turns a diagram
//! into a sequence of primitive [`Instruction`]s over addressable cells; and
//! [`generate`] renders the instructions through a [`Model`] of the target
//! execution machine.  A brainfuck [`Model`](models::Brainfuck) is provided,
//! reachable directly through [`autoperm_bf`].
//!
//! The solver is verified: executing the instructions it emits moves every
//! input value to the output cells the diagram asks for and clears what is
//! dropped, for every valid diagram and every choice of input values.  See
//! the proof functions in [`laws`].

use vstd::prelude::*;

pub mod graph;
pub mod laws;
pub mod model;
pub mod models;
pub mod parse;
pub mod semantics;
pub mod solve;

pub use model::Model;
pub use parse::{parse, ParseError, StackEffectDiagram};
pub use solve::{solve, Instruction};

verus! {

/// The brainfuck program for a diagram: the brainfuck model's rendering of
/// what the solver emits, starting with an empty program and the cursor at
/// cell zero.
pub open spec fn bf_program(inputs: int, mapping: Seq<int>) -> Seq<char> {
    models::Brainfuck::spec_finish(
        model::fold_model::<models::Brainfuck>(
            models::BrainfuckState { program: Seq::empty(), ptr: 0 },
            solve::solve_spec(inputs, mapping),
        ),
    )
}

/// Generate a brainfuck program that applies a given stack effect diagram
/// written in the textual notation.
///
/// On the accepted notation the result is exactly [`bf_program`] of the
/// parsed diagram; otherwise it is the error [`parse`] reports.
pub fn autoperm_bf(stack_effect: &str) -> (res: Result<String, ParseError>)
    ensures
        match parse::spec_parse(stack_effect@) {
            parse::SpecParse::Parsed { inputs, mapping } => match res {
                Result::Ok(out) => out@ == bf_program(inputs, mapping),
                Result::Err(_) => false,
            },
            parse::SpecParse::Failed { error } => match res {
                Result::Ok(_) => false,
                Result::Err(e) => e@ == error,
            },
        },
{
    let model = models::Brainfuck::new();
    proof {
        assert(model@ == (models::BrainfuckState { program: Seq::<char>::empty(), ptr: 0 }));
    }
    autoperm(stack_effect, model)
}

/// Generate a program to apply a given stack effect diagram, through any
/// [`Model`] of the target machine.
///
/// On the accepted notation the result is the model's rendering of what
/// the solver emits for the parsed diagram; otherwise it is the error
/// [`parse`] reports.
pub fn autoperm<M: Model>(stack_effect: &str, model: M) -> (res: Result<
    M::Output,
    ParseError,
>)
    ensures
        match parse::spec_parse(stack_effect@) {
            parse::SpecParse::Parsed { inputs, mapping } => match res {
                Result::Ok(out) => out@ == M::spec_finish(
                    model::fold_model::<M>(model@, solve::solve_spec(inputs, mapping)),
                ),
                Result::Err(_) => false,
            },
            parse::SpecParse::Failed { error } => match res {
                Result::Ok(_) => false,
                Result::Err(e) => e@ == error,
            },
        },
{
    let diagram = match parse::parse(stack_effect) {
        Result::Ok(d) => d,
        Result::Err(e) => {
            return Result::Err(e);
        },
    };
    let instructions = solve::solve(&diagram);
    Result::Ok(generate(instructions, model))
}

/// A copy of a destination list, so a borrowed instruction can hand its
/// destinations to a model by value.
fn clone_cells(cells: &Vec<isize>) -> (r: Vec<isize>)
    ensures
        r@ == cells@,
{
    let mut r: Vec<isize> = Vec::new();
    let n = cells.len();
    let mut k: usize = 0;
    while k < n
        invariant
            k <= n,
            n == cells.len(),
            r@ == cells@.take(k as int),
        decreases n - k,
    {
        r.push(cells[k]);
        k = k + 1;
        proof {
            assert(r@ =~= cells@.take(k as int));
        }
    }
    proof {
        assert(cells@.take(n as int) =~= cells@);
    }
    r
}

/// Generate a program from a list of [`Instruction`]s using a given
/// [`Model`].
///
/// The output is exactly the model's rendering of the instruction
/// sequence: its transition functions folded over the instructions, then
/// finished.
pub fn generate<M: Model>(instructions: Vec<Instruction>, model: M) -> (out: M::Output)
    ensures
        out@ == M::spec_finish(model::fold_model::<M>(model@, instructions.deep_view())),
{
    let ghost m0 = model@;
    let ghost prog = instructions.deep_view();
    let mut current = model;
    let n = instructions.len();
    let mut k: usize = 0;
    proof {
        assert(prog.take(0) =~= Seq::<solve::SpecInstr>::empty());
    }
    while k < n
        invariant
            k <= n,
            n == instructions.len(),
            prog == instructions.deep_view(),
            prog.len() == n,
            current@ == model::fold_model::<M>(m0, prog.take(k as int)),
        decreases n - k,
    {
        proof {
            assert(prog.take(k + 1).drop_last() =~= prog.take(k as int));
            assert(prog.take(k + 1).last() == prog[k as int]);
            assert(prog.take(k + 1) =~= prog.take(k as int).push(prog[k as int]));
            model::lemma_fold_model_push::<M>(m0, prog.take(k as int), prog[k as int]);
            assert(prog[k as int] == instructions[k as int].deep_view());
        }
        let instruction = &instructions[k];
        match instruction {
            Instruction::Clear { cell } => current.clear(*cell),
            Instruction::Mov { cell, to } => current.mov(*cell, clone_cells(to)),
            Instruction::Start { cell } => current.start(*cell),
            Instruction::Top { cell } => current.top(*cell),
        }
        k = k + 1;
    }
    proof {
        assert(prog.take(n as int) =~= prog);
    }
    current.finish()
}

} // verus!
