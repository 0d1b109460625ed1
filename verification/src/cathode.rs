//! Signal strengths of a one-register video instruction stream.
//!
//! `noop` burns one cycle; `addx` burns two and then adds to the register.
//! The answer sums `cycle * register` at the sampling cycles twenty,
//! sixty, and so on up to two hundred twenty, sampled as the machine steps.

use vstd::prelude::*;

verus! {

use crate::parse::{chars_of, lit_at, scan_int, spec_int_at};

#[derive(PartialEq, Eq, Structural, Clone, Copy, Debug)]
pub enum Instruction {
    Noop,
    AddX(i32),
}

/// What an instruction line means: `noop`, or `addx` and a small number.
pub open spec fn spec_instruction(s: Seq<char>) -> Option<Instruction> {
    if lit_at(s, "noop"@, 0) {
        Some(Instruction::Noop)
    } else if lit_at(s, "addx "@, 0) {
        match spec_int_at(s, "addx "@.len() as int) {
            Some((v, e)) => if e == s.len() && -1000 <= v <= 1000 {
                Some(Instruction::AddX(v as i32))
            } else {
                None
            },
            None => None,
        }
    } else {
        None
    }
}

/// Reads the instruction lines.  Every line must be an instruction whose
/// operand stays within a thousand either way.
pub fn get_instructions_from_lines(lines: &Vec<String>) -> (r: Vec<Instruction>)
    requires
        forall|i: int| 0 <= i < lines@.len() ==> spec_instruction((#[trigger] lines@[i])@) is Some,
    ensures
        r@.len() == lines@.len(),
        forall|i: int|
            0 <= i < lines@.len() ==> #[trigger] r@[i] == spec_instruction(lines@[i]@).unwrap(),
{
    let n = lines.len();
    let mut out: Vec<Instruction> = Vec::new();
    let mut i: usize = 0;
    while i < n
        invariant
            n == lines@.len(),
            forall|i2: int|
                0 <= i2 < n ==> spec_instruction((#[trigger] lines@[i2])@) is Some,
            i <= n,
            out@.len() == i,
            forall|i2: int|
                0 <= i2 < i ==> #[trigger] out@[i2] == spec_instruction(lines@[i2]@).unwrap(),
        decreases n - i,
    {
        let cs = chars_of(lines[i].as_str());
        let instr: Instruction;
        if crate::parse::lit_match(&cs, 0, "noop") {
            instr = Instruction::Noop;
        } else if crate::parse::lit_match(&cs, 0, "addx ") {
            let plen = chars_of("addx ").len();
            match scan_int(&cs, plen) {
                Some((v, e)) => {
                    if e == cs.len() && -1000 <= v && v <= 1000 {
                        instr = Instruction::AddX(v as i32);
                    } else {
                        proof {
                            assert(false);
                        }
                        instr = Instruction::Noop;
                    }
                },
                None => {
                    proof {
                        assert(false);
                    }
                    instr = Instruction::Noop;
                },
            }
        } else {
            proof {
                assert(false);
            }
            instr = Instruction::Noop;
        }
        out.push(instr);
        i = i + 1;
    }
    out
}

/// The per-cycle effects of an instruction: `noop` one idle cycle, `addx`
/// an idle cycle and then the add.
pub open spec fn cycle_effects(instr: Instruction) -> Seq<Option<i32>> {
    match instr {
        Instruction::Noop => seq![Option::<i32>::None],
        Instruction::AddX(dx) => seq![Option::<i32>::None, Option::<i32>::Some(dx)],
    }
}

/// The effects of the first `upto` instructions, in order.
pub open spec fn spec_effects(instrs: Seq<Instruction>, upto: int) -> Seq<Option<i32>>
    decreases upto,
{
    if upto <= 0 {
        Seq::empty()
    } else {
        spec_effects(instrs, upto - 1) + cycle_effects(instrs[upto - 1])
    }
}

/// One machine step over `(register, cycle, signal_sum)`.
pub open spec fn spec_step(state: (int, int, int), e: Option<i32>) -> (int, int, int) {
    let rx = match e {
        None => state.0,
        Some(dx) => state.0 + dx,
    };
    let cycle = state.1 + 1;
    let signal = if 20 <= cycle <= 220 && (cycle - 20) % 40 == 0 {
        state.2 + cycle * rx
    } else {
        state.2
    };
    (rx, cycle, signal)
}

/// The machine run over the first `upto` effects, from register one,
/// cycle one, signal zero.
pub open spec fn spec_run(effects: Seq<Option<i32>>, upto: int) -> (int, int, int)
    decreases upto,
{
    if upto <= 0 {
        (1, 1, 0)
    } else {
        spec_step(spec_run(effects, upto - 1), effects[upto - 1])
    }
}

/// The value a wide sum takes when squeezed into an `i32`: its remainder
/// modulo two to the thirty-second, shifted into the signed range.
pub open spec fn wrap_i32(x: int) -> int {
    let m = x % 0x1_0000_0000;
    if m >= 0x8000_0000 {
        m - 0x1_0000_0000
    } else {
        m
    }
}

/// The summed signal strengths at the sampling cycles, squeezed into an
/// `i32`; when the sum fits, it is returned exactly.
pub fn part1(lines: &Vec<String>) -> (r: i32)
    requires
        lines@.len() <= 1000,
        forall|i: int| 0 <= i < lines@.len() ==> spec_instruction((#[trigger] lines@[i])@) is Some,
    ensures
        ({
            let effects = spec_effects(
                Seq::new(lines@.len(), |i: int| spec_instruction(lines@[i]@).unwrap()),
                lines@.len() as int,
            );
            let total = spec_run(effects, effects.len() as int).2;
            &&& r as int == wrap_i32(total)
            &&& (i32::MIN <= total <= i32::MAX ==> r == total)
        }),
{
    let instructions = get_instructions_from_lines(lines);
    let ghost ispec = Seq::new(lines@.len(), |i: int| spec_instruction(lines@[i]@).unwrap());
    proof {
        assert(instructions@ =~= ispec);
    }
    let n = instructions.len();
    let mut effects: Vec<Option<i32>> = Vec::new();
    let mut i: usize = 0;
    while i < n
        invariant
            n == instructions@.len(),
            n <= 1000,
            instructions@ == ispec,
            ispec == Seq::new(lines@.len(), |i2: int| spec_instruction(lines@[i2]@).unwrap()),
            n == lines@.len(),
            forall|i2: int|
                0 <= i2 < n ==> spec_instruction((#[trigger] lines@[i2])@) is Some,
            i <= n,
            effects@ =~= spec_effects(instructions@, i as int),
            effects@.len() <= 2 * i,
            forall|k: int|
                0 <= k < effects@.len() ==> ((#[trigger] effects@[k]) matches Some(dx) ==> -1000
                    <= dx <= 1000),
        decreases n - i,
    {
        proof {
            assert(instructions@[i as int] == spec_instruction(lines@[i as int]@).unwrap());
        }
        match instructions[i] {
            Instruction::Noop => {
                effects.push(None);
            },
            Instruction::AddX(dx) => {
                effects.push(None);
                effects.push(Some(dx));
            },
        }
        proof {
            assert(effects@ =~= spec_effects(instructions@, i + 1));
        }
        i = i + 1;
    }
    let m = effects.len();
    let mut rx: i32 = 1;
    let mut cycle: i32 = 1;
    let mut signal: i64 = 0;
    let mut k: usize = 0;
    while k < m
        invariant
            m == effects@.len(),
            m <= 2000,
            forall|k2: int|
                0 <= k2 < m ==> ((#[trigger] effects@[k2]) matches Some(dx) ==> -1000 <= dx
                    <= 1000),
            k <= m,
            (rx as int, cycle as int, signal as int) == spec_run(effects@, k as int),
            cycle == k + 1,
            -(1 + 1000 * (k as int)) <= rx <= 1 + 1000 * (k as int),
            -(1_000_000_000 * (k as int)) <= signal <= 1_000_000_000 * (k as int),
        decreases m - k,
    {
        match effects[k] {
            None => {},
            Some(dx) => {
                rx = rx + dx;
            },
        }
        cycle = cycle + 1;
        if 20 <= cycle && cycle <= 220 && (cycle - 20) % 40 == 0 {
            proof {
                assert((cycle as int) * (rx as int) <= 220 * (1 + 1000 * 2000int)
                    && (cycle as int) * (rx as int) >= -(220 * (1 + 1000 * 2000int)))
                    by (nonlinear_arith)
                    requires
                        20 <= cycle <= 220,
                        -(1 + 1000 * 2000int) <= rx <= 1 + 1000 * 2000int,
                ;
            }
            signal = signal + (cycle as i64) * (rx as i64);
        }
        k = k + 1;
    }
    let wrapped = match signal.checked_rem_euclid(0x1_0000_0000i64) {
        Some(v) => v,
        None => {
            proof {
                assert(false);
            }
            0
        },
    };
    if wrapped >= 0x8000_0000i64 {
        (wrapped - 0x1_0000_0000i64) as i32
    } else {
        wrapped as i32
    }
}

} // verus!
