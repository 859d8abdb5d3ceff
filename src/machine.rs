use vstd::prelude::*;
use vstd::arithmetic::div_mod::{lemma_add_mod_noop_right, lemma_sub_mod_noop_right};

use crate::program::{Instr, Op, Program};

verus! {

/// The number of cells of the tape.
pub const TAPE_LEN: usize = 65536;

/// Why a run stopped before the end of the program.
#[derive(Clone, Copy, Debug, PartialEq, Eq, Structural)]
pub enum ExecError {
    /// A move took the data pointer below the first cell or past the last one.
    TapeOutOfBounds,
}

/// The state of a run: the tape and the two cursors.
pub ghost struct Config {
    pub tape: Seq<u8>,
    pub ip: int,
    pub dp: int,
}

/// The effect of a movement or arithmetic record of kind `op` and count `n` on the
/// tape and the data pointer. Cells wrap modulo 256; a move that leaves the tape fails.
pub open spec fn apply(op: Op, n: nat, tape: Seq<u8>, dp: int) -> Result<(Seq<u8>, int), ExecError> {
    match op {
        Op::Inc => Ok((tape.update(dp, ((tape[dp] + n) % 256) as u8), dp)),
        Op::Dec => Ok((tape.update(dp, ((tape[dp] - n) % 256) as u8), dp)),
        Op::Right => if dp + n < TAPE_LEN {
            Ok((tape, dp + n))
        } else {
            Err(ExecError::TapeOutOfBounds)
        },
        Op::Left => if dp - n >= 0 {
            Ok((tape, dp - n))
        } else {
            Err(ExecError::TapeOutOfBounds)
        },
        _ => Ok((tape, dp)),
    }
}

/// One step of a run: the record at the instruction pointer takes effect, and the byte
/// it writes to the output, if any, comes back beside the new state. `input` is the byte
/// that an input record reads; at the end of the input it is `None`, and the cell keeps
/// its value. The `End` record leaves the state as it is.
pub open spec fn exec_op(t: Seq<(Op, nat)>, j: Seq<Option<usize>>, c: Config, input: Option<u8>) -> Result<
    (Config, Option<u8>),
    ExecError,
> {
    let (op, n) = t[c.ip];
    let next = Config { ip: c.ip + 1, ..c };
    match op {
        Op::Open => if c.tape[c.dp] == 0 {
            Ok((Config { ip: j[c.ip]->0 + 1, ..c }, None))
        } else {
            Ok((next, None))
        },
        Op::Close => if c.tape[c.dp] != 0 {
            Ok((Config { ip: j[c.ip]->0 + 1, ..c }, None))
        } else {
            Ok((next, None))
        },
        Op::Output => Ok((next, Some(c.tape[c.dp]))),
        Op::Input => match input {
            Some(b) => Ok((Config { tape: c.tape.update(c.dp, b), ..next }, None)),
            None => Ok((next, None)),
        },
        Op::End => Ok((c, None)),
        _ => match apply(op, n, c.tape, c.dp) {
            Ok((tape, dp)) => Ok((Config { tape, ip: c.ip + 1, dp }, None)),
            Err(e) => Err(e),
        },
    }
}

pub open spec fn out_seq(o: Option<u8>) -> Seq<u8> {
    match o {
        Some(b) => seq![b],
        None => Seq::empty(),
    }
}

/// `r` with `o` written before its output.
pub open spec fn prepend(o: Seq<u8>, r: Result<(Config, Seq<u8>), ExecError>) -> Result<
    (Config, Seq<u8>),
    ExecError,
> {
    match r {
        Ok((c, x)) => Ok((c, o + x)),
        Err(e) => Err(e),
    }
}

/// A run of at most `fuel` steps from `c`, reading from `input`: the state where it
/// stopped and all it wrote, or the error that ended it. It stops at `End` or when the
/// fuel is spent.
pub open spec fn run_spec(
    t: Seq<(Op, nat)>,
    j: Seq<Option<usize>>,
    c: Config,
    input: Seq<u8>,
    fuel: nat,
) -> Result<(Config, Seq<u8>), ExecError>
    decreases fuel,
{
    if !(0 <= c.ip < t.len()) || t[c.ip].0 is End || fuel == 0 {
        Ok((c, Seq::empty()))
    } else {
        let reads = t[c.ip].0 is Input && input.len() > 0;
        let byte = if reads {
            Some(input[0])
        } else {
            None
        };
        let rest = if reads {
            input.drop_first()
        } else {
            input
        };
        match exec_op(t, j, c, byte) {
            Err(e) => Err(e),
            Ok((c2, o)) => prepend(out_seq(o), run_spec(t, j, c2, rest, (fuel - 1) as nat)),
        }
    }
}

proof fn lemma_prepend_twice(a: Seq<u8>, b: Seq<u8>, r: Result<(Config, Seq<u8>), ExecError>)
    ensures
        prepend(a, prepend(b, r)) == prepend(a + b, r),
{
    if let Ok((c, x)) = r {
        assert(a + (b + x) =~= (a + b) + x);
    }
}

/// The tape, the instruction pointer and the data pointer of a run.
#[derive(Debug)]
pub struct Machine {
    pub tape: Vec<u8>,
    pub ip: usize,
    pub dp: usize,
}

impl Machine {
    pub open spec fn config(&self) -> Config {
        Config { tape: self.tape@, ip: self.ip as int, dp: self.dp as int }
    }

    /// The tape has its full length and both cursors point inside what they index.
    pub open spec fn wf(&self, p: &Program) -> bool {
        &&& self.tape@.len() == TAPE_LEN
        &&& self.dp < TAPE_LEN
        &&& self.ip < p.tokens@.len()
    }

    /// A machine at the start of a run: all cells zero, both cursors at 0.
    pub fn new() -> (m: Machine)
        ensures
            m.tape@ == Seq::new(TAPE_LEN as nat, |i: int| 0u8),
            m.ip == 0,
            m.dp == 0,
    {
        let mut tape: Vec<u8> = Vec::new();
        let mut i: usize = 0;
        while i < TAPE_LEN
            invariant
                i <= TAPE_LEN,
                tape@ == Seq::new(i as nat, |k: int| 0u8),
            decreases TAPE_LEN - i,
        {
            tape.push(0);
            i = i + 1;
            assert(tape@ =~= Seq::new(i as nat, |k: int| 0u8));
        }
        Machine { tape, ip: 0, dp: 0 }
    }

    /// Whether the record at the instruction pointer is `End`.
    pub fn halted(&self, p: &Program) -> (r: bool)
        requires
            self.wf(p),
        ensures
            r == (p.stream()[self.ip as int].0 is End),
    {
        p.tokens[self.ip].op == Op::End
    }

    /// Whether the record at the instruction pointer reads a byte.
    pub fn wants_input(&self, p: &Program) -> (r: bool)
        requires
            self.wf(p),
        ensures
            r == (p.stream()[self.ip as int].0 is Input),
    {
        p.tokens[self.ip].op == Op::Input
    }

    /// Executes the record at the instruction pointer, which is not `End`. `input` is the
    /// byte an input record reads, `None` at the end of the input. Returns the byte that
    /// an output record writes.
    pub fn step(&mut self, p: &Program, input: Option<u8>) -> (r: Result<Option<u8>, ExecError>)
        requires
            p.wf(),
            old(self).wf(p),
            !(p.stream()[old(self).ip as int].0 is End),
        ensures
            match exec_op(p.stream(), p.matching_brackets@, old(self).config(), input) {
                Ok((c, o)) => r == Ok::<Option<u8>, ExecError>(o) && final(self).config() == c
                    && final(self).wf(p),
                Err(e) => r == Err::<Option<u8>, ExecError>(e),
            },
    {
        let ghost t = p.stream();
        let ghost j = p.matching_brackets@;
        let ghost ip = self.ip as int;
        let Instr { op, count } = p.tokens[self.ip];
        assert(t[ip] == (op, count as nat));
        let n = p.tokens.len();
        assert(t.len() == n);
        assert(ip < t.len() - 1);
        match op {
            Op::Inc => {
                let cur = self.tape[self.dp];
                let v = ((cur as u64 + (count % 256) as u64) % 256) as u8;
                proof {
                    lemma_add_mod_noop_right(cur as int, count as int, 256);
                }
                self.tape.set(self.dp, v);
                self.ip = self.ip + 1;
                Ok(None)
            },
            Op::Dec => {
                let cur = self.tape[self.dp];
                let v = ((cur as u64 + 256 - (count % 256) as u64) % 256) as u8;
                proof {
                    lemma_sub_mod_noop_right(cur as int, count as int, 256);
                    lemma_add_mod_noop_right(cur - (count % 256), 256, 256);
                }
                self.tape.set(self.dp, v);
                self.ip = self.ip + 1;
                Ok(None)
            },
            Op::Right => {
                if count >= TAPE_LEN - self.dp {
                    Err(ExecError::TapeOutOfBounds)
                } else {
                    self.dp = self.dp + count;
                    self.ip = self.ip + 1;
                    Ok(None)
                }
            },
            Op::Left => {
                if count > self.dp {
                    Err(ExecError::TapeOutOfBounds)
                } else {
                    self.dp = self.dp - count;
                    self.ip = self.ip + 1;
                    Ok(None)
                }
            },
            Op::Open | Op::Close => {
                let cell = self.tape[self.dp];
                if (op == Op::Open && cell == 0) || (op == Op::Close && cell != 0) {
                    assert(j[ip] is Some);
                    let q = p.matching_brackets[self.ip].unwrap();
                    assert(t[q as int].0 is Open || t[q as int].0 is Close);
                    self.ip = q + 1;
                } else {
                    self.ip = self.ip + 1;
                }
                Ok(None)
            },
            Op::Output => {
                let b = self.tape[self.dp];
                self.ip = self.ip + 1;
                Ok(Some(b))
            },
            Op::Input => {
                match input {
                    Some(b) => {
                        self.tape.set(self.dp, b);
                    },
                    None => {},
                }
                self.ip = self.ip + 1;
                Ok(None)
            },
            Op::End => Ok(None),
        }
    }

    /// Runs the program for at most `fuel` steps, or until it reaches `End`. Input
    /// records read the bytes of `input` in order, and leave the cell as it is once they
    /// are spent. Returns the bytes written by output records.
    pub fn run(&mut self, p: &Program, input: &Vec<u8>, fuel: usize) -> (r: Result<Vec<u8>, ExecError>)
        requires
            p.wf(),
            old(self).wf(p),
        ensures
            match run_spec(p.stream(), p.matching_brackets@, old(self).config(), input@, fuel as nat) {
                Ok((c, o)) => r is Ok && r->Ok_0@ == o && final(self).config() == c && final(self).wf(p),
                Err(e) => r == Err::<Vec<u8>, ExecError>(e),
            },
    {
        let ghost t = p.stream();
        let ghost j = p.matching_brackets@;
        let ghost whole = run_spec(t, j, self.config(), input@, fuel as nat);
        let mut out: Vec<u8> = Vec::new();
        let mut pos: usize = 0;
        let mut left: usize = fuel;
        proof {
            assert(input@.skip(0) =~= input@);
            assert(prepend(out@, whole) == whole) by {
                if let Ok((c, x)) = whole {
                    assert(Seq::<u8>::empty() + x =~= x);
                }
            }
        }
        while left > 0 && !self.halted(p)
            invariant
                p.wf(),
                self.wf(p),
                t == p.stream(),
                j == p.matching_brackets@,
                pos <= input@.len(),
                whole == run_spec(t, j, old(self).config(), input@, fuel as nat),
                whole == prepend(out@, run_spec(t, j, self.config(), input@.skip(pos as int), left as nat)),
            decreases left,
        {
            let ghost before = self.config();
            let ghost rest = input@.skip(pos as int);
            let reads = self.wants_input(p) && pos < input.len();
            let byte = if reads {
                Some(input[pos])
            } else {
                None
            };
            let ghost next_rest = if reads {
                rest.drop_first()
            } else {
                rest
            };
            proof {
                if reads {
                    assert(rest[0] == input@[pos as int]);
                    assert(next_rest =~= input@.skip(pos + 1));
                }
            }
            match self.step(p, byte) {
                Err(e) => {
                    assert(run_spec(t, j, before, rest, left as nat) == Err::<(Config, Seq<u8>), ExecError>(e));
                    return Err(e);
                },
                Ok(o) => {
                    let ghost old_out = out@;
                    proof {
                        lemma_prepend_twice(
                            old_out,
                            out_seq(o),
                            run_spec(t, j, self.config(), next_rest, (left - 1) as nat),
                        );
                    }
                    match o {
                        Some(b) => {
                            out.push(b);
                            assert(out@ =~= old_out + out_seq(o));
                        },
                        None => {
                            assert(out@ =~= old_out + out_seq(o));
                        },
                    }
                    if reads {
                        pos = pos + 1;
                    }
                    left = left - 1;
                },
            }
        }
        proof {
            assert(out@ + Seq::<u8>::empty() =~= out@);
        }
        Ok(out)
    }
}

} // verus!
