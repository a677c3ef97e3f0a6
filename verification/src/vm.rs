//! The interpreter: an operand stack of 8-bit values, an instruction
//! pointer, and a fetch-decode-execute loop over a byte program.
//!
//! The semantics are given twice: [`spec_step`] is one transition of the
//! machine, [`run_from`] iterates it to a halt or a fault.  Every
//! executable method is proved against them.  Arithmetic wraps modulo
//! 256; a `Print` or `PrintTop` appends the observed value to the
//! machine's output sequence, in execution order.

use vstd::prelude::*;
use vstd::wrapping::u8_specs;

verus! {

/// A fault that stops execution: the machine's terminal failure states.
#[derive(Clone, Copy, Debug, PartialEq, Eq, Structural)]
pub enum Fault {
    /// An operation needed more operands than the stack held.
    StackUnderflow,
    /// The fetched byte is not an opcode of the instruction set.
    IllegalOpcode,
    /// A `Push` opcode at the end of the program, its operand byte missing.
    TruncatedProgram,
}

/// One fetch-decode-execute transition, from the instruction pointer `ip`
/// and the operand stack `stack` (bottom first).
///
/// `Ok((ip2, stack2, emitted))` is a successful step: the new instruction
/// pointer, the new stack, and the values emitted (empty but for `Print`
/// and `PrintTop`).  `Err(fault)` stops the machine with the stack as it
/// stood; the opcode byte itself has been consumed.
pub open spec fn spec_step(program: Seq<u8>, ip: int, stack: Seq<u8>) -> Result<
    (int, Seq<u8>, Seq<u8>),
    Fault,
>
    recommends
        0 <= ip < program.len(),
{
    let opcode = program[ip];
    if opcode == 0x01 {
        if ip + 1 < program.len() {
            Ok((ip + 2, stack.push(program[ip + 1]), Seq::empty()))
        } else {
            Err(Fault::TruncatedProgram)
        }
    } else if opcode == 0x02 || opcode == 0x03 || opcode == 0x04 {
        if stack.len() >= 2 {
            let a = stack[stack.len() - 2];
            let b = stack[stack.len() - 1];
            let result = if opcode == 0x02 {
                u8_specs::wrapping_add(a, b)
            } else if opcode == 0x03 {
                u8_specs::wrapping_sub(a, b)
            } else {
                u8_specs::wrapping_mul(a, b)
            };
            Ok((ip + 1, stack.drop_last().drop_last().push(result), Seq::empty()))
        } else {
            Err(Fault::StackUnderflow)
        }
    } else if opcode == 0x05 {
        if stack.len() >= 1 {
            Ok((ip + 1, stack.drop_last(), seq![stack.last()]))
        } else {
            Err(Fault::StackUnderflow)
        }
    } else if opcode == 0x06 {
        if stack.len() >= 1 {
            Ok((ip + 1, stack, seq![stack.last()]))
        } else {
            Err(Fault::StackUnderflow)
        }
    } else if opcode == 0x07 {
        if stack.len() >= 1 {
            Ok((ip + 1, stack.push(stack.last()), Seq::empty()))
        } else {
            Err(Fault::StackUnderflow)
        }
    } else if opcode == 0x08 {
        if stack.len() >= 2 {
            Ok(
                (
                    ip + 1,
                    stack.drop_last().drop_last().push(stack.last()).push(
                        stack[stack.len() - 2],
                    ),
                    Seq::empty(),
                ),
            )
        } else {
            Err(Fault::StackUnderflow)
        }
    } else if opcode == 0x09 {
        if stack.len() >= 1 {
            Ok((ip + 1, stack.drop_last(), Seq::empty()))
        } else {
            Err(Fault::StackUnderflow)
        }
    } else {
        Err(Fault::IllegalOpcode)
    }
}

/// Execution from `ip`, `stack` and the output emitted so far, iterated
/// to termination.
///
/// The result is `(verdict, final ip, final stack, final output)`:
/// `verdict` is `None` when the machine halts (the instruction pointer
/// reached the end of the program) and `Some(fault)` when it faults.
/// Execution always terminates, since each step advances the pointer.
pub open spec fn run_from(program: Seq<u8>, ip: int, stack: Seq<u8>, output: Seq<u8>) -> (
    Option<Fault>,
    int,
    Seq<u8>,
    Seq<u8>,
)
    decreases program.len() - ip,
{
    if ip < 0 || ip >= program.len() {
        (None, ip, stack, output)
    } else {
        match spec_step(program, ip, stack) {
            Ok(step) => run_from(program, step.0, step.1, output + step.2),
            Err(fault) => (Some(fault), ip + 1, stack, output),
        }
    }
}

/// The virtual machine: a byte program, an instruction pointer, an
/// operand stack and the output emitted so far.
pub struct VM {
    /// The operand stack, bottom first; push and pop at the tail.
    pub stack: Vec<u8>,
    /// The instruction pointer: the index of the next byte to fetch.
    pub ip: usize,
    /// The byte program; read-only once the machine is made.
    pub program: Vec<u8>,
    /// The values emitted by `Print` and `PrintTop`, in execution order.
    pub output: Vec<u8>,
}

impl VM {
    /// A fresh machine over the program: empty stack, pointer at the
    /// start, nothing emitted.
    pub fn new(program: Vec<u8>) -> (vm: VM)
        ensures
            vm.program@ == program@,
            vm.ip == 0,
            vm.stack@ == Seq::<u8>::empty(),
            vm.output@ == Seq::<u8>::empty(),
    {
        VM { stack: Vec::new(), ip: 0, program, output: Vec::new() }
    }

    /// `Push`: read the operand byte at the pointer and push it; a fault
    /// when the program ends before the operand.
    pub fn push(&mut self) -> (r: Result<(), Fault>)
        ensures
            final(self).program@ == old(self).program@,
            final(self).output@ == old(self).output@,
            old(self).ip < old(self).program@.len() ==> {
                &&& r is Ok
                &&& final(self).ip == old(self).ip + 1
                &&& final(self).stack@ == old(self).stack@.push(
                    old(self).program@[old(self).ip as int],
                )
            },
            old(self).ip >= old(self).program@.len() ==> {
                &&& r == Err::<(), Fault>(Fault::TruncatedProgram)
                &&& final(self).ip == old(self).ip
                &&& final(self).stack@ == old(self).stack@
            },
    {
        if self.ip < self.program.len() {
            let value = self.program[self.ip];
            self.ip += 1;
            self.stack.push(value);
            Ok(())
        } else {
            Err(Fault::TruncatedProgram)
        }
    }

    /// `Add`: pop two values and push their sum modulo 256.
    pub fn add(&mut self) -> (r: Result<(), Fault>)
        ensures
            final(self).program@ == old(self).program@,
            final(self).output@ == old(self).output@,
            final(self).ip == old(self).ip,
            old(self).stack@.len() >= 2 ==> {
                &&& r is Ok
                &&& final(self).stack@ == old(self).stack@.drop_last().drop_last().push(
                    u8_specs::wrapping_add(
                        old(self).stack@[old(self).stack@.len() - 2],
                        old(self).stack@[old(self).stack@.len() - 1],
                    ),
                )
            },
            old(self).stack@.len() < 2 ==> {
                &&& r == Err::<(), Fault>(Fault::StackUnderflow)
                &&& final(self).stack@ == old(self).stack@
            },
    {
        if self.stack.len() < 2 {
            return Err(Fault::StackUnderflow);
        }
        let b = self.stack.pop().unwrap();
        let a = self.stack.pop().unwrap();
        let result = a.wrapping_add(b);
        self.stack.push(result);
        proof {
            assert(old(self).stack@.subrange(0, old(self).stack@.len() - 1).subrange(
                0,
                old(self).stack@.len() - 2,
            ) =~= old(self).stack@.drop_last().drop_last());
        }
        Ok(())
    }

    /// `Sub`: pop two values and push their difference modulo 256.
    pub fn sub(&mut self) -> (r: Result<(), Fault>)
        ensures
            final(self).program@ == old(self).program@,
            final(self).output@ == old(self).output@,
            final(self).ip == old(self).ip,
            old(self).stack@.len() >= 2 ==> {
                &&& r is Ok
                &&& final(self).stack@ == old(self).stack@.drop_last().drop_last().push(
                    u8_specs::wrapping_sub(
                        old(self).stack@[old(self).stack@.len() - 2],
                        old(self).stack@[old(self).stack@.len() - 1],
                    ),
                )
            },
            old(self).stack@.len() < 2 ==> {
                &&& r == Err::<(), Fault>(Fault::StackUnderflow)
                &&& final(self).stack@ == old(self).stack@
            },
    {
        if self.stack.len() < 2 {
            return Err(Fault::StackUnderflow);
        }
        let b = self.stack.pop().unwrap();
        let a = self.stack.pop().unwrap();
        let result = a.wrapping_sub(b);
        self.stack.push(result);
        proof {
            assert(old(self).stack@.subrange(0, old(self).stack@.len() - 1).subrange(
                0,
                old(self).stack@.len() - 2,
            ) =~= old(self).stack@.drop_last().drop_last());
        }
        Ok(())
    }

    /// `Mul`: pop two values and push their product modulo 256.
    pub fn mul(&mut self) -> (r: Result<(), Fault>)
        ensures
            final(self).program@ == old(self).program@,
            final(self).output@ == old(self).output@,
            final(self).ip == old(self).ip,
            old(self).stack@.len() >= 2 ==> {
                &&& r is Ok
                &&& final(self).stack@ == old(self).stack@.drop_last().drop_last().push(
                    u8_specs::wrapping_mul(
                        old(self).stack@[old(self).stack@.len() - 2],
                        old(self).stack@[old(self).stack@.len() - 1],
                    ),
                )
            },
            old(self).stack@.len() < 2 ==> {
                &&& r == Err::<(), Fault>(Fault::StackUnderflow)
                &&& final(self).stack@ == old(self).stack@
            },
    {
        if self.stack.len() < 2 {
            return Err(Fault::StackUnderflow);
        }
        let b = self.stack.pop().unwrap();
        let a = self.stack.pop().unwrap();
        let result = a.wrapping_mul(b);
        self.stack.push(result);
        proof {
            assert(old(self).stack@.subrange(0, old(self).stack@.len() - 1).subrange(
                0,
                old(self).stack@.len() - 2,
            ) =~= old(self).stack@.drop_last().drop_last());
        }
        Ok(())
    }

    /// `Print`: pop the top value and emit it.
    pub fn print(&mut self) -> (r: Result<(), Fault>)
        ensures
            final(self).program@ == old(self).program@,
            final(self).ip == old(self).ip,
            old(self).stack@.len() >= 1 ==> {
                &&& r is Ok
                &&& final(self).stack@ == old(self).stack@.drop_last()
                &&& final(self).output@ == old(self).output@.push(old(self).stack@.last())
            },
            old(self).stack@.len() == 0 ==> {
                &&& r == Err::<(), Fault>(Fault::StackUnderflow)
                &&& final(self).stack@ == old(self).stack@
                &&& final(self).output@ == old(self).output@
            },
    {
        match self.stack.pop() {
            Some(value) => {
                self.output.push(value);
                proof {
                    assert(old(self).stack@.subrange(0, old(self).stack@.len() - 1) =~= old(
                        self,
                    ).stack@.drop_last());
                }
                Ok(())
            },
            None => Err(Fault::StackUnderflow),
        }
    }

    /// `PrintTop`: emit the top value without popping it.
    pub fn print_top(&mut self) -> (r: Result<(), Fault>)
        ensures
            final(self).program@ == old(self).program@,
            final(self).ip == old(self).ip,
            final(self).stack@ == old(self).stack@,
            old(self).stack@.len() >= 1 ==> {
                &&& r is Ok
                &&& final(self).output@ == old(self).output@.push(old(self).stack@.last())
            },
            old(self).stack@.len() == 0 ==> {
                &&& r == Err::<(), Fault>(Fault::StackUnderflow)
                &&& final(self).output@ == old(self).output@
            },
    {
        if self.stack.len() == 0 {
            return Err(Fault::StackUnderflow);
        }
        let value = self.stack[self.stack.len() - 1];
        self.output.push(value);
        Ok(())
    }

    /// `Dup`: push a copy of the top value.
    pub fn dup(&mut self) -> (r: Result<(), Fault>)
        ensures
            final(self).program@ == old(self).program@,
            final(self).ip == old(self).ip,
            final(self).output@ == old(self).output@,
            old(self).stack@.len() >= 1 ==> {
                &&& r is Ok
                &&& final(self).stack@ == old(self).stack@.push(old(self).stack@.last())
            },
            old(self).stack@.len() == 0 ==> {
                &&& r == Err::<(), Fault>(Fault::StackUnderflow)
                &&& final(self).stack@ == old(self).stack@
            },
    {
        if self.stack.len() == 0 {
            return Err(Fault::StackUnderflow);
        }
        let value = self.stack[self.stack.len() - 1];
        self.stack.push(value);
        Ok(())
    }

    /// `Swap`: exchange the top two values.
    pub fn swap(&mut self) -> (r: Result<(), Fault>)
        ensures
            final(self).program@ == old(self).program@,
            final(self).ip == old(self).ip,
            final(self).output@ == old(self).output@,
            old(self).stack@.len() >= 2 ==> {
                &&& r is Ok
                &&& final(self).stack@ == old(self).stack@.drop_last().drop_last().push(
                    old(self).stack@.last(),
                ).push(old(self).stack@[old(self).stack@.len() - 2])
            },
            old(self).stack@.len() < 2 ==> {
                &&& r == Err::<(), Fault>(Fault::StackUnderflow)
                &&& final(self).stack@ == old(self).stack@
            },
    {
        if self.stack.len() < 2 {
            return Err(Fault::StackUnderflow);
        }
        let b = self.stack.pop().unwrap();
        let a = self.stack.pop().unwrap();
        self.stack.push(b);
        self.stack.push(a);
        proof {
            assert(old(self).stack@.subrange(0, old(self).stack@.len() - 1).subrange(
                0,
                old(self).stack@.len() - 2,
            ) =~= old(self).stack@.drop_last().drop_last());
        }
        Ok(())
    }

    /// `Drop`: pop the top value and discard it.
    pub fn drop(&mut self) -> (r: Result<(), Fault>)
        ensures
            final(self).program@ == old(self).program@,
            final(self).ip == old(self).ip,
            final(self).output@ == old(self).output@,
            old(self).stack@.len() >= 1 ==> {
                &&& r is Ok
                &&& final(self).stack@ == old(self).stack@.drop_last()
            },
            old(self).stack@.len() == 0 ==> {
                &&& r == Err::<(), Fault>(Fault::StackUnderflow)
                &&& final(self).stack@ == old(self).stack@
            },
    {
        match self.stack.pop() {
            Some(_) => {
                proof {
                    assert(old(self).stack@.subrange(0, old(self).stack@.len() - 1) =~= old(
                        self,
                    ).stack@.drop_last());
                }
                Ok(())
            },
            None => Err(Fault::StackUnderflow),
        }
    }

    /// Fetch the opcode at the pointer, advance past it, and execute it:
    /// exactly one [`spec_step`] transition.
    pub fn run_instruction(&mut self) -> (r: Result<(), Fault>)
        requires
            old(self).ip < old(self).program@.len(),
        ensures
            final(self).program@ == old(self).program@,
            match spec_step(old(self).program@, old(self).ip as int, old(self).stack@) {
                Ok(step) => {
                    &&& r is Ok
                    &&& final(self).ip as int == step.0
                    &&& final(self).stack@ == step.1
                    &&& final(self).output@ == old(self).output@ + step.2
                },
                Err(fault) => {
                    &&& r == Err::<(), Fault>(fault)
                    &&& final(self).ip == old(self).ip + 1
                    &&& final(self).stack@ == old(self).stack@
                    &&& final(self).output@ == old(self).output@
                },
            },
    {
        let n = self.program.len();
        let opcode = self.program[self.ip];
        proof {
            assert(self.ip < n);
        }
        self.ip += 1;
        let r = match opcode {
            0x01 => self.push(),
            0x02 => self.add(),
            0x03 => self.sub(),
            0x04 => self.mul(),
            0x05 => self.print(),
            0x06 => self.print_top(),
            0x07 => self.dup(),
            0x08 => self.swap(),
            0x09 => self.drop(),
            _ => Err(Fault::IllegalOpcode),
        };
        proof {
            assert(old(self).output@ + Seq::<u8>::empty() =~= old(self).output@);
            assert(old(self).output@ + seq![old(self).stack@.last()] =~= old(self).output@.push(
                old(self).stack@.last(),
            ));
        }
        r
    }

    /// Drive the machine until it halts or faults: the whole of
    /// [`run_from`] from the machine's current state.
    pub fn run(&mut self) -> (r: Result<(), Fault>)
        ensures
            final(self).program@ == old(self).program@,
            ({
                let outcome = run_from(
                    old(self).program@,
                    old(self).ip as int,
                    old(self).stack@,
                    old(self).output@,
                );
                &&& final(self).ip as int == outcome.1
                &&& final(self).stack@ == outcome.2
                &&& final(self).output@ == outcome.3
                &&& (match r {
                    Ok(()) => outcome.0 is None,
                    Err(fault) => outcome.0 == Some(fault),
                })
            }),
    {
        while self.ip < self.program.len()
            invariant
                self.program@ == old(self).program@,
                run_from(
                    old(self).program@,
                    old(self).ip as int,
                    old(self).stack@,
                    old(self).output@,
                ) == run_from(self.program@, self.ip as int, self.stack@, self.output@),
            decreases self.program@.len() - self.ip,
        {
            let ghost pre_ip = self.ip as int;
            let ghost pre_stack = self.stack@;
            let ghost pre_output = self.output@;
            let r = self.run_instruction();
            proof {
                assert(run_from(self.program@, pre_ip, pre_stack, pre_output) == (
                match spec_step(self.program@, pre_ip, pre_stack) {
                    Ok(step) => run_from(self.program@, step.0, step.1, pre_output + step.2),
                    Err(fault) => (Some(fault), pre_ip + 1, pre_stack, pre_output),
                }));
            }
            if let Err(fault) = r {
                return Err(fault);
            }
        }
        Ok(())
    }
}

/// `Add` then `Sub` with the same operand cancel: from any stack and any
/// output, the program `PUSH a; PUSH b; ADD; PUSH b; SUB` halts with `a`
/// pushed onto the stack it started from, for every pair of 8-bit values.
pub proof fn lemma_add_sub_cancel(stack: Seq<u8>, output: Seq<u8>, a: u8, b: u8)
    ensures
        run_from(
            seq![0x01u8, a, 0x01u8, b, 0x02u8, 0x01u8, b, 0x03u8],
            0,
            stack,
            output,
        ) == (None::<Fault>, 8int, stack.push(a), output),
{
    let prog = seq![0x01u8, a, 0x01u8, b, 0x02u8, 0x01u8, b, 0x03u8];
    let s1 = stack.push(a);
    let s2 = s1.push(b);
    let sum = u8_specs::wrapping_add(a, b);
    let s3 = stack.push(sum);
    let s4 = s3.push(b);
    assert(output + Seq::<u8>::empty() =~= output);
    assert(run_from(prog, 0, stack, output) == run_from(prog, 2, s1, output));
    assert(run_from(prog, 2, s1, output) == run_from(prog, 4, s2, output));
    assert(s2.drop_last().drop_last().push(sum) =~= s3) by {
        assert(s2.drop_last() =~= s1);
        assert(s1.drop_last() =~= stack);
    }
    assert(run_from(prog, 4, s2, output) == run_from(prog, 5, s3, output));
    assert(run_from(prog, 5, s3, output) == run_from(prog, 7, s4, output));
    assert(u8_specs::wrapping_sub(sum, b) == a);
    assert(s4.drop_last().drop_last().push(a) =~= stack.push(a)) by {
        assert(s4.drop_last() =~= s3);
        assert(s3.drop_last() =~= stack);
    }
    assert(run_from(prog, 7, s4, output) == run_from(prog, 8, stack.push(a), output));
    assert(run_from(prog, 8, stack.push(a), output) == (
        None::<Fault>,
        8int,
        stack.push(a),
        output,
    ));
}

/// `DUP` followed by `DROP` leaves the stack unchanged, in depth and in
/// contents, from any non-empty stack.
pub proof fn lemma_dup_drop(stack: Seq<u8>, output: Seq<u8>)
    requires
        stack.len() >= 1,
    ensures
        run_from(seq![0x07u8, 0x09u8], 0, stack, output) == (None::<Fault>, 2int, stack, output),
{
    let prog = seq![0x07u8, 0x09u8];
    let s1 = stack.push(stack.last());
    assert(output + Seq::<u8>::empty() =~= output);
    assert(run_from(prog, 0, stack, output) == run_from(prog, 1, s1, output));
    assert(s1.drop_last() =~= stack);
    assert(run_from(prog, 1, s1, output) == run_from(prog, 2, stack, output));
}

/// `SWAP` exchanges the top two values: with `y` on top of `x`, it halts
/// with `x` on top of `y`, the rest of the stack untouched.
pub proof fn lemma_swap_exchanges(stack: Seq<u8>, output: Seq<u8>, x: u8, y: u8)
    ensures
        run_from(seq![0x08u8], 0, stack.push(x).push(y), output) == (
            None::<Fault>,
            1int,
            stack.push(y).push(x),
            output,
        ),
{
    let prog = seq![0x08u8];
    let s0 = stack.push(x).push(y);
    assert(output + Seq::<u8>::empty() =~= output);
    assert(s0.drop_last().drop_last().push(s0.last()).push(s0[s0.len() - 2]) =~= stack.push(
        y,
    ).push(x)) by {
        assert(s0.drop_last() =~= stack.push(x));
        assert(stack.push(x).drop_last() =~= stack);
    }
    assert(run_from(prog, 0, s0, output) == run_from(prog, 1, stack.push(y).push(x), output));
}

} // verus!
