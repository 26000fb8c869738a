//! End-to-end tests: solve diagrams, render brainfuck, run the programs on
//! an interpreter and check every cell.

use autoperm::models::Brainfuck;
use autoperm::{autoperm_bf, generate, parse, solve, Instruction, StackEffectDiagram};

/// A small brainfuck interpreter: returns `(tape, output)` after running
/// `code` on a zeroed tape with the given input queue, or `None` on a
/// step-limit or tape-bound violation.
fn run_bf(code: &str, inputs: &[u8]) -> Option<(Vec<u8>, Vec<u8>)> {
    let prog: Vec<u8> = code.bytes().collect();
    // match brackets
    let mut jumps = vec![0usize; prog.len()];
    let mut stack = Vec::new();
    for (i, &b) in prog.iter().enumerate() {
        if b == b'[' {
            stack.push(i);
        } else if b == b']' {
            let open = stack.pop()?;
            jumps[open] = i;
            jumps[i] = open;
        }
    }
    if !stack.is_empty() {
        return None;
    }
    let mut tape = vec![0u8; 4096];
    let mut ptr = 0usize;
    let mut pc = 0usize;
    let mut inq = inputs.iter().copied();
    let mut out = Vec::new();
    let mut steps = 0u64;
    while pc < prog.len() {
        steps += 1;
        if steps > 10_000_000 {
            return None;
        }
        match prog[pc] {
            b'>' => {
                ptr += 1;
                if ptr >= tape.len() {
                    return None;
                }
            }
            b'<' => {
                if ptr == 0 {
                    return None;
                }
                ptr -= 1;
            }
            b'+' => tape[ptr] = tape[ptr].wrapping_add(1),
            b'-' => tape[ptr] = tape[ptr].wrapping_sub(1),
            b'.' => out.push(tape[ptr]),
            b',' => tape[ptr] = inq.next().unwrap_or(0),
            b'[' => {
                if tape[ptr] == 0 {
                    pc = jumps[pc];
                }
            }
            b']' => {
                if tape[ptr] != 0 {
                    pc = jumps[pc];
                }
            }
            _ => {}
        }
        pc += 1;
    }
    Some((tape, out))
}

/// A fixed-seed pseudo-random byte source, so runs are repeatable.
struct Lcg(u64);

impl Lcg {
    fn next_u8(&mut self) -> u8 {
        self.0 = self.0.wrapping_mul(6364136223846793005).wrapping_add(1442695040888963407);
        (self.0 >> 33) as u8
    }
}

fn test_brainfuck(code: &str, inputs: Vec<Vec<u8>>, outputs: Vec<Vec<u8>>) -> bool {
    assert_eq!(inputs.len(), outputs.len());
    for (input, expected) in inputs.iter().zip(outputs.iter()) {
        match run_bf(code, input) {
            Some((_, out)) => {
                if &out != expected {
                    println!("code: {code}\nin:   {input:?}\nwant: {expected:?}\ngot:  {out:?}");
                    return false;
                }
            }
            None => {
                println!("interpreter gave up on: {code}");
                return false;
            }
        }
    }
    true
}

/// Solve a diagram, render it, and run it on several choices of input
/// values: every output position must show the input it maps to.
fn test_stackeffect(effect: &StackEffectDiagram) -> bool {
    if !effect.mapping.is_empty() {
        assert!(
            *effect.mapping.iter().max().unwrap() < effect.inputs,
            "Problem with test creation"
        );
    }

    let instructions = solve(effect);
    let function = generate(instructions, Brainfuck::default());

    // read the inputs onto the stack, run, then print the outputs top-down
    let mut reads: String = ",>".repeat(effect.inputs);
    reads.pop();
    let mut writes: String = ".<".repeat(effect.mapping.len());
    writes.pop();
    let bf = format!(">{}\n{}{}", reads, function, writes);

    let mut rng = Lcg(0x5eed);
    let mut inputs = Vec::new();
    let mut outputs = Vec::new();
    for _ in 0..10 {
        let input: Vec<u8> = (0..effect.inputs).map(|_| rng.next_u8()).collect();
        let output: Vec<u8> = effect.mapping.iter().map(|&i| input[i]).rev().collect();
        inputs.push(input);
        outputs.push(output);
    }
    test_brainfuck(&bf, inputs, outputs)
}

/// Checks that common stack manipulation words work.
#[test]
fn serotonin() {
    // dup (a -- a a)
    let dup = StackEffectDiagram { inputs: 1, mapping: vec![0, 0] };
    assert!(test_stackeffect(&dup));
    assert_eq!(parse("a -- a a"), Ok(dup));

    // dup2 (a b -- a b a b)
    let dup2 = StackEffectDiagram { inputs: 2, mapping: vec![0, 1, 0, 1] };
    assert!(test_stackeffect(&dup2));
    assert_eq!(parse("a b -- a b a b"), Ok(dup2));

    // drop (a --)
    let drop = StackEffectDiagram { inputs: 1, mapping: vec![] };
    assert!(test_stackeffect(&drop));
    assert_eq!(parse("a --"), Ok(drop));

    // drop2 (a b --)
    let drop2 = StackEffectDiagram { inputs: 2, mapping: vec![] };
    assert!(test_stackeffect(&drop2));
    assert_eq!(parse("a b --"), Ok(drop2));

    // swap (a b -- b a)
    let swap = StackEffectDiagram { inputs: 2, mapping: vec![1, 0] };
    assert!(test_stackeffect(&swap));
    assert_eq!(parse("a b -- b a"), Ok(swap));

    // swap2 (a b c d -- c d a b)
    let swap2 = StackEffectDiagram { inputs: 4, mapping: vec![2, 3, 0, 1] };
    assert!(test_stackeffect(&swap2));
    assert_eq!(parse("a b c d -- c d a b"), Ok(swap2));

    // over (a b -- a b a)
    let over = StackEffectDiagram { inputs: 2, mapping: vec![0, 1, 0] };
    assert!(test_stackeffect(&over));
    assert_eq!(parse("a b -- a b a"), Ok(over));

    // over2 (a b c d -- a b c d a b)
    let over2 = StackEffectDiagram { inputs: 4, mapping: vec![0, 1, 2, 3, 0, 1] };
    assert!(test_stackeffect(&over2));

    // rot (a b c -- b c a)
    let rot = StackEffectDiagram { inputs: 3, mapping: vec![1, 2, 0] };
    assert!(test_stackeffect(&rot));
    assert_eq!(parse("a b c -- b c a"), Ok(rot));

    // rot2 (a b c d e f -- c d e f a b)
    let rot2 = StackEffectDiagram { inputs: 6, mapping: vec![2, 3, 4, 5, 0, 1] };
    assert!(test_stackeffect(&rot2));
    assert_eq!(parse("a b c d e f -- c d e f a b"), Ok(rot2));

    // -rot (a b c -- c a b)
    let minus_rot = StackEffectDiagram { inputs: 3, mapping: vec![2, 0, 1] };
    assert!(test_stackeffect(&minus_rot));
    assert_eq!(parse("a b c -- c a b"), Ok(minus_rot));

    // -rot2 (a b c d e f -- e f a b c d)
    let minus_rot2 = StackEffectDiagram { inputs: 6, mapping: vec![4, 5, 0, 1, 2, 3] };
    assert!(test_stackeffect(&minus_rot2));
    assert_eq!(parse("a b c d e f -- e f a b c d"), Ok(minus_rot2));

    // nip (a b -- b)
    let nip = StackEffectDiagram { inputs: 2, mapping: vec![1] };
    assert!(test_stackeffect(&nip));
    assert_eq!(parse("a b -- b"), Ok(nip));

    // nip2 (a b c d -- c d)
    let nip2 = StackEffectDiagram { inputs: 4, mapping: vec![2, 3] };
    assert!(test_stackeffect(&nip2));
    assert_eq!(parse("a b c d -- c d"), Ok(nip2));

    // tuck (a b -- b a b)
    let tuck = StackEffectDiagram { inputs: 2, mapping: vec![1, 0, 1] };
    assert!(test_stackeffect(&tuck));
    assert_eq!(parse("a b -- b a b"), Ok(tuck));

    // tuck2 (a b c d -- c d a b c d)
    let tuck2 = StackEffectDiagram { inputs: 4, mapping: vec![2, 3, 0, 1, 2, 3] };
    assert!(test_stackeffect(&tuck2));
    assert_eq!(parse("a b c d -- c d a b c d"), Ok(tuck2));
}

/// It would be embarrassing if the README examples didn't work.
#[test]
fn readme() {
    // (a b -- b a)
    let one = StackEffectDiagram { inputs: 2, mapping: vec![1, 0] };
    assert!(test_stackeffect(&one));
    assert_eq!(parse("a b -- b a"), Ok(one));

    // (a b c -- c a b)
    let two = StackEffectDiagram { inputs: 3, mapping: vec![2, 0, 1] };
    assert!(test_stackeffect(&two));
    assert_eq!(parse("a b c -- c a b"), Ok(two));

    // (a -- a a a a)
    let three = StackEffectDiagram { inputs: 1, mapping: vec![0, 0, 0, 0] };
    assert!(test_stackeffect(&three));
    assert_eq!(parse("a -- a a a a"), Ok(three));

    // (a b c d -- d c a b)
    let four = StackEffectDiagram { inputs: 4, mapping: vec![3, 2, 0, 1] };
    assert!(test_stackeffect(&four));
    assert_eq!(parse("a b c d -- d c a b"), Ok(four));

    // (a b c -- c)
    let five = StackEffectDiagram { inputs: 3, mapping: vec![2] };
    assert!(test_stackeffect(&five));
    assert_eq!(parse("a b c -- c"), Ok(five));

    // (a b c d e f -- c d d f e e b)
    let six = StackEffectDiagram { inputs: 6, mapping: vec![2, 3, 3, 5, 4, 4, 1] };
    assert!(test_stackeffect(&six));
    assert_eq!(parse("a b c d e f -- c d d f e e b"), Ok(six));
}

// Prevent regressions from being reintroduced
#[test]
fn regressions() {
    assert!(test_stackeffect(&StackEffectDiagram { inputs: 3, mapping: vec![0, 0] }));

    assert!(test_stackeffect(&StackEffectDiagram { inputs: 2, mapping: vec![] }));

    assert!(test_stackeffect(&StackEffectDiagram { inputs: 4, mapping: vec![0, 0] }));
}

/// The reference rendering of a plain swap, cursor bookkeeping included.
#[test]
fn swap_program_text() {
    assert_eq!(
        autoperm_bf("a b -- b a"),
        Ok("[->+<]<[->+<]>>[-<<+>>]<".to_string())
    );
}

/// The reference rendering of a rotation: one cycle through the scratch
/// cell, ending with the cursor on the new top of the stack.
#[test]
fn rotate_program_text() {
    assert_eq!(
        autoperm_bf("a b c -- c a b"),
        Ok("[->+<]<[->+<]<[->+<]>>>[-<<<+>>>]<".to_string())
    );
}

/// Solving and generating are deterministic: the same diagram twice gives
/// the same instructions, and the same instructions give the same bytes.
#[test]
fn deterministic() {
    let diagram = StackEffectDiagram { inputs: 6, mapping: vec![2, 3, 3, 5, 4, 4, 1] };
    let first = solve(&diagram);
    let second = solve(&diagram);
    assert_eq!(first, second);
    let out1 = generate(first, Brainfuck::new());
    let out2 = generate(second, Brainfuck::new());
    assert_eq!(out1, out2);
    assert_eq!(autoperm_bf("x y -- y x y"), autoperm_bf("x y -- y x y"));
}

/// Dropped inputs end at zero on the tape (the output cells hold the
/// mapped values; everything else, the cleared inputs included, is zero).
#[test]
fn clearing_drops() {
    // (a b c -- c): cells 1..=2 held a and b and must end cleared
    let diagram = StackEffectDiagram { inputs: 3, mapping: vec![2] };
    let function = generate(solve(&diagram), Brainfuck::new());
    let bf = format!(">{}\n{}", ",>,>,", function);
    let (tape, _) = run_bf(&bf, &[7, 9, 13]).unwrap();
    // stack lives at cells 1..: output cell holds the original c
    assert_eq!(tape[1], 13);
    // the other input cells and the scratch cell end at zero
    assert_eq!(&tape[2..6], &[0, 0, 0, 0]);
}

/// The instruction sequences for the concrete scenarios.
#[test]
fn scenario_instructions() {
    // swap
    let instructions = solve(&StackEffectDiagram { inputs: 2, mapping: vec![1, 0] });
    assert_eq!(
        instructions,
        vec![
            Instruction::Start { cell: 1 },
            Instruction::Mov { cell: 1, to: vec![2] },
            Instruction::Mov { cell: 0, to: vec![1] },
            Instruction::Mov { cell: 2, to: vec![0] },
            Instruction::Top { cell: 1 },
        ]
    );

    // drop both
    let instructions = solve(&StackEffectDiagram { inputs: 2, mapping: vec![] });
    assert_eq!(
        instructions,
        vec![
            Instruction::Start { cell: 1 },
            Instruction::Clear { cell: 0 },
            Instruction::Clear { cell: 1 },
            Instruction::Top { cell: -1 },
        ]
    );

    // nip
    let instructions = solve(&StackEffectDiagram { inputs: 2, mapping: vec![1] });
    assert_eq!(
        instructions,
        vec![
            Instruction::Start { cell: 1 },
            Instruction::Clear { cell: 0 },
            Instruction::Mov { cell: 1, to: vec![0] },
            Instruction::Top { cell: 0 },
        ]
    );

    // quadruple duplicate: a self-read with fan-out routed through scratch
    let instructions = solve(&StackEffectDiagram { inputs: 1, mapping: vec![0, 0, 0, 0] });
    assert_eq!(
        instructions,
        vec![
            Instruction::Start { cell: 0 },
            Instruction::Mov { cell: 0, to: vec![4] },
            Instruction::Mov { cell: 4, to: vec![0, 1, 2, 3] },
            Instruction::Top { cell: 3 },
        ]
    );

    // rotate: a single three-cycle through the scratch cell, each member
    // read just after the cell it feeds was emptied
    let instructions = solve(&StackEffectDiagram { inputs: 3, mapping: vec![2, 0, 1] });
    assert_eq!(
        instructions,
        vec![
            Instruction::Start { cell: 2 },
            Instruction::Mov { cell: 2, to: vec![3] },
            Instruction::Mov { cell: 1, to: vec![2] },
            Instruction::Mov { cell: 0, to: vec![1] },
            Instruction::Mov { cell: 3, to: vec![0] },
            Instruction::Top { cell: 2 },
        ]
    );
}

/// Exactly one scratch address is ever used, and it lies above every data
/// cell.
#[test]
fn scratch_address_bound() {
    let cases: Vec<(usize, Vec<usize>)> = vec![
        (2, vec![1, 0]),
        (1, vec![0, 0, 0, 0]),
        (3, vec![]),
        (6, vec![2, 3, 3, 5, 4, 4, 1]),
        (4, vec![3, 2, 0, 1]),
    ];
    for (inputs, mapping) in cases {
        let scratch = inputs.max(mapping.len()) as isize;
        let instructions = solve(&StackEffectDiagram { inputs, mapping });
        let mut beyond_data = Vec::new();
        for instruction in &instructions {
            match instruction {
                Instruction::Clear { cell } => {
                    assert!(0 <= *cell && *cell <= scratch);
                    if *cell == scratch {
                        beyond_data.push(*cell);
                    }
                }
                Instruction::Mov { cell, to } => {
                    assert!(0 <= *cell && *cell <= scratch);
                    if *cell == scratch {
                        beyond_data.push(*cell);
                    }
                    for d in to {
                        assert!(0 <= *d && *d <= scratch);
                        if *d == scratch {
                            beyond_data.push(*d);
                        }
                    }
                }
                Instruction::Start { .. } | Instruction::Top { .. } => {}
            }
        }
        // every address past the data cells is the one scratch cell
        assert!(beyond_data.iter().all(|&c| c == scratch));
    }
}

/// For a pure permutation the cycle-breaking rule runs exactly once per
/// non-trivial cycle, and a single cycle of size `n` costs at most `n + 1`
/// data instructions.
#[test]
fn cycle_rule_cost() {
    // one five-cycle
    let instructions = solve(&StackEffectDiagram { inputs: 5, mapping: vec![4, 0, 1, 2, 3] });
    let data_ops = instructions
        .iter()
        .filter(|i| matches!(i, Instruction::Clear { .. } | Instruction::Mov { .. }))
        .count();
    assert!(data_ops <= 6);
    let scratch_movs = instructions
        .iter()
        .filter(|i| matches!(i, Instruction::Mov { to, .. } if to == &vec![5isize]))
        .count();
    assert_eq!(scratch_movs, 1);

    // the identity permutation needs no data instructions at all
    let instructions = solve(&StackEffectDiagram { inputs: 4, mapping: vec![0, 1, 2, 3] });
    let data_ops = instructions
        .iter()
        .filter(|i| matches!(i, Instruction::Clear { .. } | Instruction::Mov { .. }))
        .count();
    assert_eq!(data_ops, 0);

    // two two-cycles break twice, once per cycle
    let instructions = solve(&StackEffectDiagram { inputs: 4, mapping: vec![2, 3, 0, 1] });
    let scratch_movs = instructions
        .iter()
        .filter(|i| matches!(i, Instruction::Mov { to, .. } if to == &vec![4isize]))
        .count();
    assert_eq!(scratch_movs, 2);
}
