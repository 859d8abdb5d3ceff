use vstd::prelude::*;
use vstd::arithmetic::div_mod::{lemma_add_mod_noop, lemma_add_mod_noop_right, lemma_sub_mod_noop};

use crate::machine::{apply, exec_op, out_seq, prepend, run_spec, Config, ExecError, TAPE_LEN};
use crate::program::{
    append_op, commands, depth, is_jump_table, is_repeatable, lemma_depth_step, op_of_char,
    partners, runs, stream_of, Op, Program,
};

verus! {

/// A `]` has one partner.
proof fn lemma_open_partner_unique(t: Seq<(Op, nat)>, p1: int, p2: int, q: int)
    requires
        partners(t, p1, q),
        partners(t, p2, q),
    ensures
        p1 == p2,
{
    if p1 < p2 {
        lemma_depth_step(t, p2);
        assert(depth(t, p2) >= depth(t, p1 + 1));
    } else if p2 < p1 {
        lemma_depth_step(t, p1);
        assert(depth(t, p1) >= depth(t, p2 + 1));
    }
}

/// A `[` has one partner.
proof fn lemma_close_partner_unique(t: Seq<(Op, nat)>, p: int, q1: int, q2: int)
    requires
        partners(t, p, q1),
        partners(t, p, q2),
    ensures
        q1 == q2,
{
    if q1 < q2 {
        lemma_depth_step(t, q1);
        assert(depth(t, q1 + 1) >= depth(t, p + 1));
    } else if q2 < q1 {
        lemma_depth_step(t, q2);
        assert(depth(t, q2 + 1) >= depth(t, p + 1));
    }
}

/// The jump table of a parsed program is an involution: following the jump from a
/// bracket, then the jump from where it lands, comes back to the bracket.
pub proof fn jump_table_involution(p: &Program)
    requires
        p.wf(),
    ensures
        forall|k: int|
            0 <= k < p.matching_brackets@.len() && #[trigger] p.matching_brackets@[k] is Some
                ==> p.matching_brackets@[p.matching_brackets@[k]->0 as int] == Some(k as usize),
{
    let t = p.stream();
    let j = p.matching_brackets@;
    assert forall|k: int| 0 <= k < j.len() && #[trigger] j[k] is Some implies j[j[k]->0 as int]
        == Some(k as usize) by {
        let q = j[k]->0 as int;
        if t[k].0 is Open {
            assert(partners(t, k, q));
            assert(j[q] is Some);
            let k2 = j[q]->0 as int;
            assert(partners(t, k2, q));
            lemma_open_partner_unique(t, k, k2, q);
        } else {
            assert(partners(t, q, k));
            assert(j[q] is Some);
            let k2 = j[q]->0 as int;
            assert(partners(t, q, k2));
            lemma_close_partner_unique(t, q, k, k2);
        }
    }
}

/// `n` records of kind `op` with count 1, executed one after the other.
pub open spec fn apply_repeated(op: Op, n: nat, tape: Seq<u8>, dp: int) -> Result<(Seq<u8>, int), ExecError>
    decreases n,
{
    if n == 0 {
        Ok((tape, dp))
    } else {
        match apply_repeated(op, (n - 1) as nat, tape, dp) {
            Ok((t2, d2)) => apply(op, 1, t2, d2),
            Err(e) => Err(e),
        }
    }
}

/// A compressed record of a repeatable kind with count `n` changes the tape and the data
/// pointer as `n` records of count 1 do, cells wrapping modulo 256, and fails exactly
/// when they do.
pub proof fn compressed_record_matches_single_steps(op: Op, n: nat, tape: Seq<u8>, dp: int)
    requires
        is_repeatable(op),
        tape.len() == TAPE_LEN,
        0 <= dp < TAPE_LEN,
    ensures
        apply(op, n, tape, dp) == apply_repeated(op, n, tape, dp),
    decreases n,
{
    let x = tape[dp] as int;
    if n == 0 {
        assert(x % 256 == x);
        assert(tape.update(dp, (x % 256) as u8) =~= tape);
    } else {
        compressed_record_matches_single_steps(op, (n - 1) as nat, tape, dp);
        match op {
            Op::Inc => {
                lemma_add_mod_noop(x + n - 1, 1, 256);
                let t2 = tape.update(dp, ((x + n - 1) % 256) as u8);
                assert(0 <= (x + n - 1) % 256 < 256);
                assert(t2[dp] == (x + n - 1) % 256);
                assert(t2.update(dp, ((t2[dp] + 1) % 256) as u8) =~= tape.update(dp, ((x + n) % 256) as u8));
            },
            Op::Dec => {
                lemma_sub_mod_noop(x - (n - 1), 1, 256);
                let t2 = tape.update(dp, ((x - (n - 1)) % 256) as u8);
                assert(0 <= (x - (n - 1)) % 256 < 256);
                assert(t2[dp] == (x - (n - 1)) % 256);
                assert(t2.update(dp, ((t2[dp] - 1) % 256) as u8) =~= tape.update(dp, ((x - n) % 256) as u8));
            },
            _ => {},
        }
    }
}

/// A source text without an instruction character parses to a stream holding `End`
/// alone, and running it stops at once: the state is unchanged and nothing is written.
pub proof fn ignored_text_is_noop(
    s: Seq<char>,
    j: Seq<Option<usize>>,
    c: Config,
    input: Seq<u8>,
    fuel: nat,
)
    requires
        forall|i: int| 0 <= i < s.len() ==> crate::program::op_of_char(#[trigger] s[i]) is None,
        c.ip == 0,
    ensures
        commands(s).len() == 0,
        stream_of(s) == seq![(Op::End, 1nat)],
        run_spec(stream_of(s), j, c, input, fuel) == Ok::<(Config, Seq<u8>), ExecError>((c, Seq::empty())),
    decreases s.len(),
{
    if s.len() > 0 {
        let s2 = s.drop_last();
        ignored_text_is_noop(s2, j, c, input, fuel);
    }
    assert(runs(commands(s)) =~= Seq::<(Op, nat)>::empty());
    assert(stream_of(s) =~= seq![(Op::End, 1nat)]);
}

proof fn lemma_commands_concat(a: Seq<char>, b: Seq<char>)
    ensures
        commands(a + b) == commands(a) + commands(b),
    decreases b.len(),
{
    if b.len() == 0 {
        assert(a + b =~= a);
        assert(commands(a) + commands(b) =~= commands(a));
    } else {
        lemma_commands_concat(a, b.drop_last());
        assert((a + b).drop_last() =~= a + b.drop_last());
        assert((a + b).last() == b.last());
        match op_of_char(b.last()) {
            Some(op) => {
                assert(commands(a + b) =~= commands(a) + commands(b));
            },
            None => {},
        }
    }
}

proof fn lemma_commands_repeat(c: char, op: Op, n: nat)
    requires
        op_of_char(c) == Some(op),
    ensures
        commands(Seq::new(n, |i: int| c)) == Seq::new(n, |i: int| op),
    decreases n,
{
    if n > 0 {
        lemma_commands_repeat(c, op, (n - 1) as nat);
        assert(Seq::new(n, |i: int| c).drop_last() =~= Seq::new((n - 1) as nat, |i: int| c));
        assert(commands(Seq::new(n, |i: int| c)) =~= Seq::new(n, |i: int| op));
    } else {
        assert(commands(Seq::new(n, |i: int| c)) =~= Seq::new(n, |i: int| op));
    }
}

proof fn lemma_runs_last(x: Seq<Op>)
    ensures
        x.len() == 0 <==> runs(x).len() == 0,
        x.len() > 0 ==> runs(x).last().0 == x.last(),
    decreases x.len(),
{
    if x.len() > 0 {
        lemma_runs_last(x.drop_last());
    }
}

proof fn lemma_runs_concat(x: Seq<Op>, y: Seq<Op>)
    requires
        x.len() == 0 || y.len() == 0 || !is_repeatable(y[0]) || x.last() != y[0],
    ensures
        runs(x + y) == runs(x) + runs(y),
    decreases y.len(),
{
    if y.len() == 0 {
        assert(x + y =~= x);
        assert(runs(x) + runs(y) =~= runs(x));
    } else {
        let y2 = y.drop_last();
        assert((x + y).drop_last() =~= x + y2);
        assert((x + y).last() == y.last());
        lemma_runs_concat(x, y2);
        lemma_runs_last(x);
        lemma_runs_last(y2);
        let a = runs(x);
        let b = runs(y2);
        if y2.len() > 0 {
            assert(append_op(a + b, y.last()) =~= a + append_op(b, y.last()));
        } else {
            assert(b =~= Seq::<(Op, nat)>::empty());
            assert(a + b =~= a);
            assert(append_op(a, y.last()) =~= a + append_op(b, y.last()));
        }
    }
}

proof fn lemma_runs_repeat(op: Op, n: nat)
    requires
        is_repeatable(op),
        n >= 1,
    ensures
        runs(Seq::new(n, |i: int| op)) == seq![(op, n)],
    decreases n,
{
    let s = Seq::new(n, |i: int| op);
    assert(s.drop_last() =~= Seq::new((n - 1) as nat, |i: int| op));
    if n > 1 {
        lemma_runs_repeat(op, (n - 1) as nat);
        assert(runs(s) =~= seq![(op, n)]);
    } else {
        assert(runs(s.drop_last()) =~= Seq::<(Op, nat)>::empty());
        assert(runs(s) =~= seq![(op, n)]);
    }
}

/// A run of `n` copies of a repeatable instruction character, between text whose nearest
/// instructions are of another kind, becomes exactly one record of that kind with
/// count `n`, between the records of the text around it.
pub proof fn run_becomes_one_record(a: Seq<char>, c: char, op: Op, n: nat, b: Seq<char>)
    requires
        op_of_char(c) == Some(op),
        is_repeatable(op),
        n >= 1,
        commands(a).len() == 0 || commands(a).last() != op,
        commands(b).len() == 0 || commands(b)[0] != op,
    ensures
        stream_of(a + Seq::new(n, |i: int| c) + b) == runs(commands(a)) + seq![(op, n)] + runs(
            commands(b),
        ).push((Op::End, 1)),
{
    let r = Seq::new(n, |i: int| c);
    let ops = Seq::new(n, |i: int| op);
    lemma_commands_concat(a, r);
    lemma_commands_concat(a + r, b);
    lemma_commands_repeat(c, op, n);
    lemma_runs_concat(commands(a), ops);
    lemma_runs_repeat(op, n);
    assert((commands(a) + ops).last() == op);
    lemma_runs_concat(commands(a) + ops, commands(b));
    assert(runs(commands(a)) + seq![(op, n)] + runs(commands(b)).push((Op::End, 1)) =~= (
    runs(commands(a)) + seq![(op, n)] + runs(commands(b))).push((Op::End, 1)));
}

/// The loop that moves the first cell onto the second.
pub open spec fn copy_loop_source() -> Seq<char> {
    seq!['[', '-', '>', '+', '<', ']']
}

pub open spec fn copy_loop_stream() -> Seq<(Op, nat)> {
    seq![
        (Op::Open, 1nat),
        (Op::Dec, 1nat),
        (Op::Right, 1nat),
        (Op::Inc, 1nat),
        (Op::Left, 1nat),
        (Op::Close, 1nat),
        (Op::End, 1nat),
    ]
}

proof fn lemma_copy_loop_stream()
    ensures
        stream_of(copy_loop_source()) == copy_loop_stream(),
{
    let s6 = copy_loop_source();
    let s5 = seq!['[', '-', '>', '+', '<'];
    let s4 = seq!['[', '-', '>', '+'];
    let s3 = seq!['[', '-', '>'];
    let s2 = seq!['[', '-'];
    let s1 = seq!['['];
    let s0 = Seq::<char>::empty();
    assert(s6.drop_last() =~= s5);
    assert(s5.drop_last() =~= s4);
    assert(s4.drop_last() =~= s3);
    assert(s3.drop_last() =~= s2);
    assert(s2.drop_last() =~= s1);
    assert(s1.drop_last() =~= s0);
    let o6 = seq![Op::Open, Op::Dec, Op::Right, Op::Inc, Op::Left, Op::Close];
    let o5 = seq![Op::Open, Op::Dec, Op::Right, Op::Inc, Op::Left];
    let o4 = seq![Op::Open, Op::Dec, Op::Right, Op::Inc];
    let o3 = seq![Op::Open, Op::Dec, Op::Right];
    let o2 = seq![Op::Open, Op::Dec];
    let o1 = seq![Op::Open];
    assert(commands(s0) =~= Seq::<Op>::empty());
    assert(s1.last() == '[' && s2.last() == '-' && s3.last() == '>');
    assert(s4.last() == '+' && s5.last() == '<' && s6.last() == ']');
    assert(commands(s1) =~= o1);
    assert(commands(s2) =~= o2);
    assert(commands(s3) =~= o3);
    assert(commands(s4) =~= o4);
    assert(commands(s5) =~= o5);
    assert(commands(s6) =~= o6);
    assert(o6.drop_last() =~= o5);
    assert(o5.drop_last() =~= o4);
    assert(o4.drop_last() =~= o3);
    assert(o3.drop_last() =~= o2);
    assert(o2.drop_last() =~= o1);
    assert(o1.drop_last() =~= Seq::<Op>::empty());
    let w = copy_loop_stream();
    assert(runs(Seq::<Op>::empty()) =~= Seq::<(Op, nat)>::empty());
    assert(o1.last() == Op::Open && o2.last() == Op::Dec && o3.last() == Op::Right);
    assert(o4.last() == Op::Inc && o5.last() == Op::Left && o6.last() == Op::Close);
    assert(runs(o1) =~= w.take(1));
    assert(runs(o2) =~= w.take(2));
    assert(runs(o3) =~= w.take(3));
    assert(runs(o4) =~= w.take(4));
    assert(runs(o5) =~= w.take(5));
    assert(runs(o6) =~= w.take(6));
    assert(w.take(6).push((Op::End, 1)) =~= w);
}

proof fn lemma_copy_loop_jumps(j: Seq<Option<usize>>)
    requires
        is_jump_table(copy_loop_stream(), j),
    ensures
        j[0] == Some(5usize),
        j[5] == Some(0usize),
{
    let t = copy_loop_stream();
    assert(j[0] is Some);
    assert(partners(t, 0, j[0]->0 as int));
    assert(j[5] is Some);
    assert(partners(t, j[5]->0 as int, 5));
}

/// A step that reads and writes nothing leaves the rest of the run as it was.
proof fn lemma_quiet_step(
    t: Seq<(Op, nat)>,
    j: Seq<Option<usize>>,
    c: Config,
    c2: Config,
    input: Seq<u8>,
    fuel: nat,
)
    requires
        0 <= c.ip < t.len(),
        !(t[c.ip].0 is End),
        !(t[c.ip].0 is Input),
        fuel > 0,
        exec_op(t, j, c, None) == Ok::<(Config, Option<u8>), ExecError>((c2, None)),
    ensures
        run_spec(t, j, c, input, fuel) == run_spec(t, j, c2, input, (fuel - 1) as nat),
{
    let r = run_spec(t, j, c2, input, (fuel - 1) as nat);
    assert(out_seq(None) =~= Seq::<u8>::empty());
    if let Ok((c3, x)) = r {
        assert(Seq::<u8>::empty() + x =~= x);
    }
    assert(prepend(Seq::empty(), r) == r);
}

proof fn lemma_copy_loop_iterations(j: Seq<Option<usize>>, tape: Seq<u8>, input: Seq<u8>, fuel: nat)
    requires
        j[0] == Some(0usize) || j[0] == Some(5usize),
        j[5] == Some(0usize),
        tape.len() == TAPE_LEN,
        tape[0] >= 1,
        fuel >= 5 * tape[0],
    ensures
        run_spec(copy_loop_stream(), j, Config { tape, ip: 1, dp: 0 }, input, fuel) == Ok::<
            (Config, Seq<u8>),
            ExecError,
        >(
            (
                Config {
                    tape: tape.update(0, 0).update(1, ((tape[0] + tape[1]) % 256) as u8),
                    ip: 6,
                    dp: 0,
                },
                Seq::empty(),
            ),
        ),
    decreases tape[0],
{
    let t = copy_loop_stream();
    let v = tape[0] as int;
    let d = tape[1] as int;
    assert((v - 1) % 256 == v - 1);
    let ta = tape.update(0, (v - 1) as u8);
    assert(0 <= (d + 1) % 256 < 256);
    let tb = ta.update(1, ((d + 1) % 256) as u8);
    let c0 = Config { tape, ip: 1, dp: 0 };
    let c1 = Config { tape: ta, ip: 2, dp: 0 };
    let c2 = Config { tape: ta, ip: 3, dp: 1 };
    let c3 = Config { tape: tb, ip: 4, dp: 1 };
    let c4 = Config { tape: tb, ip: 5, dp: 0 };
    assert(ta[1] == tape[1]);
    assert(exec_op(t, j, c0, None) == Ok::<(Config, Option<u8>), ExecError>((c1, None)));
    assert(exec_op(t, j, c1, None) == Ok::<(Config, Option<u8>), ExecError>((c2, None)));
    assert(exec_op(t, j, c2, None) == Ok::<(Config, Option<u8>), ExecError>((c3, None)));
    assert(exec_op(t, j, c3, None) == Ok::<(Config, Option<u8>), ExecError>((c4, None)));
    lemma_quiet_step(t, j, c0, c1, input, fuel);
    lemma_quiet_step(t, j, c1, c2, input, (fuel - 1) as nat);
    lemma_quiet_step(t, j, c2, c3, input, (fuel - 2) as nat);
    lemma_quiet_step(t, j, c3, c4, input, (fuel - 3) as nat);
    assert(tb[0] == v - 1);
    let goal = tape.update(0, 0).update(1, ((v + d) % 256) as u8);
    if v == 1 {
        let c5 = Config { tape: tb, ip: 6, dp: 0 };
        assert(exec_op(t, j, c4, None) == Ok::<(Config, Option<u8>), ExecError>((c5, None)));
        lemma_quiet_step(t, j, c4, c5, input, (fuel - 4) as nat);
        assert(tb =~= goal);
    } else {
        let c5 = Config { tape: tb, ip: 1, dp: 0 };
        assert(exec_op(t, j, c4, None) == Ok::<(Config, Option<u8>), ExecError>((c5, None)));
        lemma_quiet_step(t, j, c4, c5, input, (fuel - 4) as nat);
        assert(tb[1] == (d + 1) % 256);
        lemma_copy_loop_iterations(j, tb, input, (fuel - 5) as nat);
        lemma_add_mod_noop_right(v - 1, d + 1, 256);
        assert(tb.update(0, 0).update(1, ((tb[0] + tb[1]) % 256) as u8) =~= goal);
    }
}

/// Running the parsed loop `[->+<]` from the first cell, with enough fuel, empties the
/// first cell and adds its former value to the second, modulo 256; it halts and writes
/// nothing. This holds whatever the cells hold.
pub proof fn copy_loop_moves_cell(p: &Program, tape: Seq<u8>, input: Seq<u8>, fuel: nat)
    requires
        p.wf(),
        p.stream() == stream_of(copy_loop_source()),
        tape.len() == TAPE_LEN,
        fuel >= 5 * tape[0] + 1,
    ensures
        run_spec(p.stream(), p.matching_brackets@, Config { tape, ip: 0, dp: 0 }, input, fuel)
            == Ok::<(Config, Seq<u8>), ExecError>(
            (
                Config {
                    tape: tape.update(0, 0).update(1, ((tape[0] + tape[1]) % 256) as u8),
                    ip: 6,
                    dp: 0,
                },
                Seq::empty(),
            ),
        ),
{
    lemma_copy_loop_stream();
    let t = copy_loop_stream();
    let j = p.matching_brackets@;
    lemma_copy_loop_jumps(j);
    let c0 = Config { tape, ip: 0, dp: 0 };
    if tape[0] == 0 {
        let c1 = Config { tape, ip: 6, dp: 0 };
        assert(exec_op(t, j, c0, None) == Ok::<(Config, Option<u8>), ExecError>((c1, None)));
        lemma_quiet_step(t, j, c0, c1, input, fuel);
        assert((tape[1] as int) % 256 == tape[1]);
        assert(tape.update(0, 0).update(1, ((tape[0] + tape[1]) % 256) as u8) =~= tape);
    } else {
        let c1 = Config { tape, ip: 1, dp: 0 };
        assert(exec_op(t, j, c0, None) == Ok::<(Config, Option<u8>), ExecError>((c1, None)));
        lemma_quiet_step(t, j, c0, c1, input, fuel);
        lemma_copy_loop_iterations(j, tape, input, (fuel - 1) as nat);
    }
}

} // verus!
