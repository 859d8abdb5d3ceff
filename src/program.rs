use vstd::prelude::*;
use vstd::utf8::encode_utf8;

verus! {

/// The kind of one instruction of the language.
#[derive(Clone, Copy, Debug, PartialEq, Eq, Structural)]
pub enum Op {
    Right,
    Left,
    Inc,
    Dec,
    Open,
    Close,
    Output,
    Input,
    End,
}

/// One record of the instruction stream: a kind and how many times it repeats.
#[derive(Clone, Copy, Debug, PartialEq, Eq, Structural)]
pub struct Instr {
    pub op: Op,
    pub count: usize,
}

impl Instr {
    pub open spec fn view(self) -> (Op, nat) {
        (self.op, self.count as nat)
    }
}

/// The instruction a source character stands for, if any.
pub open spec fn op_of_char(c: char) -> Option<Op> {
    if c == '>' {
        Some(Op::Right)
    } else if c == '<' {
        Some(Op::Left)
    } else if c == '+' {
        Some(Op::Inc)
    } else if c == '-' {
        Some(Op::Dec)
    } else if c == '[' {
        Some(Op::Open)
    } else if c == ']' {
        Some(Op::Close)
    } else if c == '.' {
        Some(Op::Output)
    } else if c == ',' {
        Some(Op::Input)
    } else {
        None
    }
}

/// The instructions of a source text, in order, with every other character dropped.
pub open spec fn commands(s: Seq<char>) -> Seq<Op>
    decreases s.len(),
{
    if s.len() == 0 {
        Seq::empty()
    } else {
        let rest = commands(s.drop_last());
        match op_of_char(s.last()) {
            Some(op) => rest.push(op),
            None => rest,
        }
    }
}

/// Kinds whose consecutive occurrences are merged into one record.
pub open spec fn is_repeatable(op: Op) -> bool {
    op is Right || op is Left || op is Inc || op is Dec
}

/// Appends one instruction to a compressed stream: it extends the last record
/// when both are of the same repeatable kind, and starts a record of count 1 otherwise.
pub open spec fn append_op(t: Seq<(Op, nat)>, op: Op) -> Seq<(Op, nat)> {
    if t.len() > 0 && is_repeatable(op) && t.last().0 == op {
        t.update(t.len() - 1, (op, t.last().1 + 1))
    } else {
        t.push((op, 1))
    }
}

/// The run-length compression of a sequence of instructions.
pub open spec fn runs(ops: Seq<Op>) -> Seq<(Op, nat)>
    decreases ops.len(),
{
    if ops.len() == 0 {
        Seq::empty()
    } else {
        append_op(runs(ops.drop_last()), ops.last())
    }
}

/// The instruction stream of a source text: its compressed instructions and a final `End`.
pub open spec fn stream_of(s: Seq<char>) -> Seq<(Op, nat)> {
    runs(commands(s)).push((Op::End, 1))
}

pub open spec fn view_instrs(v: Seq<Instr>) -> Seq<(Op, nat)> {
    v.map_values(|i: Instr| i@)
}

fn op_of(c: char) -> (r: Option<Op>)
    ensures
        r == op_of_char(c),
{
    if c == '>' {
        Some(Op::Right)
    } else if c == '<' {
        Some(Op::Left)
    } else if c == '+' {
        Some(Op::Inc)
    } else if c == '-' {
        Some(Op::Dec)
    } else if c == '[' {
        Some(Op::Open)
    } else if c == ']' {
        Some(Op::Close)
    } else if c == '.' {
        Some(Op::Output)
    } else if c == ',' {
        Some(Op::Input)
    } else {
        None
    }
}

fn repeatable(op: Op) -> (r: bool)
    ensures
        r == is_repeatable(op),
{
    match op {
        Op::Right | Op::Left | Op::Inc | Op::Dec => true,
        _ => false,
    }
}

proof fn lemma_runs_counts(ops: Seq<Op>)
    ensures
        forall|i: int| 0 <= i < runs(ops).len() ==> 1 <= #[trigger] runs(ops)[i].1 <= ops.len(),
    decreases ops.len(),
{
    if ops.len() > 0 {
        let prev = runs(ops.drop_last());
        lemma_runs_counts(ops.drop_last());
        assert forall|i: int| 0 <= i < runs(ops).len() implies 1 <= #[trigger] runs(ops)[i].1
            <= ops.len() by {
            if i < prev.len() {
                assert(1 <= prev[i].1 <= ops.len() - 1);
            }
        }
    }
}

proof fn lemma_commands_len(s: Seq<char>)
    ensures
        commands(s).len() <= s.len(),
    decreases s.len(),
{
    if s.len() > 0 {
        lemma_commands_len(s.drop_last());
    }
}

/// A text's UTF-8 encoding has at least one byte per character.
proof fn lemma_encoding_len(chars: Seq<char>)
    ensures
        encode_utf8(chars).len() >= chars.len(),
    decreases chars.len(),
{
    if chars.len() > 0 {
        lemma_encoding_len(chars.drop_first());
    }
}

/// Reads the instructions of `program`, drops every other character, merges each
/// run of a repeatable kind into one record, and ends the stream with `End`.
pub fn tokenize(program: &str) -> (tokens: Vec<Instr>)
    ensures
        view_instrs(tokens@) == stream_of(program@),
{
    let mut tokens: Vec<Instr> = Vec::new();
    let ghost s = program@;
    let n_bytes = program.as_bytes().len();
    proof {
        lemma_encoding_len(s);
        assert(s.len() <= n_bytes);
    }
    let mut chars = program.chars();
    for c in it: chars
        invariant
            it.seq() == s,
            s.len() <= usize::MAX,
            view_instrs(tokens@) == runs(commands(s.take(it.index() as int))),
    {
        let ghost k = it.index() as int;
        proof {
            assert(s.take(k + 1).drop_last() =~= s.take(k));
            assert(s.take(k + 1).last() == c);
            assert(commands(s.take(k + 1)) == match op_of_char(c) {
                Some(op) => commands(s.take(k)).push(op),
                None => commands(s.take(k)),
            });
            lemma_commands_len(s.take(k));
            lemma_runs_counts(commands(s.take(k)));
        }
        match op_of(c) {
            Some(op) => {
                let ghost before = view_instrs(tokens@);
                let ghost cmds = commands(s.take(k + 1));
                assert(cmds.drop_last() =~= commands(s.take(k)));
                assert(runs(cmds) == append_op(before, op));
                let n = tokens.len();
                if n > 0 && repeatable(op) && tokens[n - 1].op == op {
                    let last = tokens[n - 1];
                    assert(view_instrs(tokens@)[n - 1].1 <= k);
                    tokens.set(n - 1, Instr { op, count: last.count + 1 });
                } else {
                    tokens.push(Instr { op, count: 1 });
                }
                assert(view_instrs(tokens@) =~= append_op(before, op));
            },
            None => {
            },
        }
    }
    proof {
        assert(s.take(s.len() as int) =~= s);
    }
    tokens.push(Instr { op: Op::End, count: 1 });
    assert(view_instrs(tokens@) =~= stream_of(s));
    tokens
}


/// Why a source text is not a program.
#[derive(Clone, Copy, Debug, PartialEq, Eq, Structural)]
pub enum ParseError {
    /// A `]` closes no open loop.
    UnmatchedClose,
    /// A `[` is never closed.
    UnmatchedOpen,
}

/// How a record changes the nesting depth of loops.
pub open spec fn delta(op: Op) -> int {
    if op is Open {
        1
    } else if op is Close {
        -1
    } else {
        0
    }
}

/// The loop nesting depth after the first `k` records of `t`.
pub open spec fn depth(t: Seq<(Op, nat)>, k: int) -> int
    decreases k,
{
    if k <= 0 || k > t.len() {
        0
    } else {
        depth(t, k - 1) + delta(t[k - 1].0)
    }
}

/// Some `]` of `t` closes no open loop.
pub open spec fn has_unmatched_close(t: Seq<(Op, nat)>) -> bool {
    exists|k: int| 0 <= k <= t.len() && #[trigger] depth(t, k) < 0
}

/// Every loop of `t` is opened and closed, properly nested.
pub open spec fn balanced(t: Seq<(Op, nat)>) -> bool {
    !has_unmatched_close(t) && depth(t, t.len() as int) == 0
}

/// The `[` at `p` and the `]` at `q` are partners: the records strictly between them
/// are balanced.
pub open spec fn partners(t: Seq<(Op, nat)>, p: int, q: int) -> bool {
    &&& 0 <= p < q < t.len()
    &&& t[p].0 is Open
    &&& t[q].0 is Close
    &&& depth(t, q) == depth(t, p + 1)
    &&& forall|m: int| p + 1 <= m <= q ==> #[trigger] depth(t, m) >= depth(t, p + 1)
}

pub open spec fn is_bracket(op: Op) -> bool {
    op is Open || op is Close
}

/// `j` maps each bracket of `t` to its partner, and nothing else.
pub open spec fn is_jump_table(t: Seq<(Op, nat)>, j: Seq<Option<usize>>) -> bool {
    &&& j.len() == t.len()
    &&& forall|p: int| 0 <= p < t.len() ==> (is_bracket(t[p].0) <==> #[trigger] j[p] is Some)
    &&& forall|p: int|
        0 <= p < t.len() && #[trigger] j[p] is Some ==> {
            let q = j[p]->0 as int;
            if t[p].0 is Open {
                partners(t, p, q)
            } else {
                partners(t, q, p)
            }
        }
}

pub(crate) proof fn lemma_depth_step(t: Seq<(Op, nat)>, k: int)
    requires
        0 <= k < t.len(),
    ensures
        depth(t, k + 1) == depth(t, k) + delta(t[k].0),
{
}

/// Builds the jump table of `tokens`, or reports the first way in which its brackets
/// fail to balance.
pub fn find_matching_brackets(tokens: &Vec<Instr>) -> (r: Result<Vec<Option<usize>>, ParseError>)
    ensures
        match r {
            Ok(j) => balanced(view_instrs(tokens@)) && is_jump_table(view_instrs(tokens@), j@),
            Err(ParseError::UnmatchedClose) => has_unmatched_close(view_instrs(tokens@)),
            Err(ParseError::UnmatchedOpen) => !has_unmatched_close(view_instrs(tokens@))
                && depth(view_instrs(tokens@), tokens@.len() as int) > 0,
        },
{
    let ghost t = view_instrs(tokens@);
    let n = tokens.len();
    let mut jumps: Vec<Option<usize>> = Vec::new();
    let mut i: usize = 0;
    while i < n
        invariant
            i <= n == tokens.len() == t.len(),
            jumps.len() == i,
            forall|p: int| 0 <= p < i ==> jumps[p] is None,
        decreases n - i,
    {
        jumps.push(None);
        i = i + 1;
    }
    let mut open: Vec<usize> = Vec::new();
    let mut k: usize = 0;
    while k < n
        invariant
            t == view_instrs(tokens@),
            k <= n == tokens.len() == t.len() == jumps.len(),
            depth(t, k as int) == open.len(),
            forall|m: int| 0 <= m <= k ==> #[trigger] depth(t, m) >= 0,
            forall|a: int, b: int| 0 <= a < b < open.len() ==> open[a] < open[b],
            forall|a: int|
                0 <= a < open.len() ==> {
                    &&& #[trigger] open[a] < k
                    &&& t[open[a] as int].0 is Open
                    &&& depth(t, open[a] + 1) == a + 1
                    &&& forall|m: int| open[a] + 1 <= m <= k ==> #[trigger] depth(t, m) >= a + 1
                },
            forall|p: int| 0 <= p < n ==> (#[trigger] jumps[p] is Some ==> p < k && is_bracket(t[p].0)),
            forall|p: int|
                0 <= p < k && is_bracket(t[p].0) && #[trigger] jumps[p] is None ==> t[p].0 is Open
                    && open@.contains(p as usize),
            forall|a: int| 0 <= a < open.len() ==> jumps[#[trigger] open[a] as int] is None,
            forall|p: int|
                0 <= p < n && #[trigger] jumps[p] is Some ==> {
                    let q = jumps[p]->0 as int;
                    if t[p].0 is Open {
                        partners(t, p, q)
                    } else {
                        partners(t, q, p)
                    }
                },
        decreases n - k,
    {
        proof {
            lemma_depth_step(t, k as int);
        }
        let ghost old_open = open@;
        let op = tokens[k].op;
        assert(t[k as int].0 == op);
        if op == Op::Open {
            open.push(k);
            assert(open@[open.len() - 1] == k);
            assert forall|p: int|
                0 <= p < k && is_bracket(t[p].0) && #[trigger] jumps[p] is None implies
                    open@.contains(p as usize) by {
                let a = choose|a: int| 0 <= a < old_open.len() && old_open[a] == p as usize;
                assert(open@[a] == p as usize);
            }
        } else if op == Op::Close {
            if open.len() == 0 {
                assert(depth(t, k + 1) < 0);
                return Err(ParseError::UnmatchedClose);
            }
            let s = open.pop().unwrap();
            assert(partners(t, s as int, k as int));
            jumps.set(s, Some(k));
            jumps.set(k, Some(s));
            assert(old_open =~= open@.push(s));
            assert forall|p: int|
                0 <= p < k + 1 && is_bracket(t[p].0) && #[trigger] jumps[p] is None implies t[p].0 is Open
                    && open@.contains(p as usize) by {
                let a = choose|a: int| 0 <= a < old_open.len() && old_open[a] == p as usize;
                if a == old_open.len() - 1 {
                    assert(false);
                }
                assert(open@[a] == p as usize);
            }
        } else {
            assert(old_open =~= open@);
        }
        k = k + 1;
    }
    if open.len() > 0 {
        return Err(ParseError::UnmatchedOpen);
    }
    Ok(jumps)
}


/// A parsed program: its instruction stream and the jump table of its brackets.
#[derive(Debug)]
pub struct Program {
    pub tokens: Vec<Instr>,
    pub matching_brackets: Vec<Option<usize>>,
}

impl Program {
    /// The instruction stream, as kinds and counts.
    pub open spec fn stream(&self) -> Seq<(Op, nat)> {
        view_instrs(self.tokens@)
    }

    /// A stream that ends with `End` and nowhere else, with every count positive,
    /// balanced brackets and a jump table that pairs them.
    pub open spec fn wf(&self) -> bool {
        let t = self.stream();
        &&& t.len() > 0
        &&& t.last().0 is End
        &&& forall|i: int| 0 <= i < t.len() - 1 ==> !(#[trigger] t[i].0 is End)
        &&& forall|i: int| 0 <= i < t.len() ==> #[trigger] t[i].1 >= 1
        &&& balanced(t)
        &&& is_jump_table(t, self.matching_brackets@)
    }
}

proof fn lemma_commands_no_end(s: Seq<char>)
    ensures
        forall|i: int| 0 <= i < commands(s).len() ==> !(#[trigger] commands(s)[i] is End),
    decreases s.len(),
{
    if s.len() > 0 {
        lemma_commands_no_end(s.drop_last());
    }
}

proof fn lemma_runs_ops(ops: Seq<Op>)
    requires
        forall|i: int| 0 <= i < ops.len() ==> !(#[trigger] ops[i] is End),
    ensures
        forall|i: int| 0 <= i < runs(ops).len() ==> !(#[trigger] runs(ops)[i].0 is End),
    decreases ops.len(),
{
    if ops.len() > 0 {
        let prev = runs(ops.drop_last());
        lemma_runs_ops(ops.drop_last());
        assert forall|i: int| 0 <= i < runs(ops).len() implies !(#[trigger] runs(ops)[i].0 is End) by {
            if i < prev.len() {
                assert(!(prev[i].0 is End));
            } else {
                assert(!(ops[ops.len() - 1] is End));
            }
        }
    }
}

proof fn lemma_depth_push_end(t: Seq<(Op, nat)>, k: int)
    requires
        0 <= k <= t.len(),
    ensures
        depth(t.push((Op::End, 1)), k) == depth(t, k),
        k == t.len() ==> depth(t.push((Op::End, 1)), t.len() + 1int) == depth(t, t.len() as int),
    decreases k,
{
    let u = t.push((Op::End, 1));
    if k > 0 {
        lemma_depth_push_end(t, k - 1);
        assert(depth(u, k) == depth(u, k - 1) + delta(u[k - 1].0));
    }
    if k == t.len() {
        assert(depth(u, k + 1) == depth(u, k) + delta(u[k].0));
    }
}

/// The source's brackets, with the text's other characters dropped, balance.
pub open spec fn source_balanced(s: Seq<char>) -> bool {
    balanced(runs(commands(s)))
}

/// Parses `program`: the instruction stream of `tokenize` with its jump table, or the
/// reason why its brackets do not balance.
pub fn parse(program: &str) -> (r: Result<Program, ParseError>)
    ensures
        match r {
            Ok(p) => source_balanced(program@) && p.wf() && p.stream() == stream_of(program@),
            Err(ParseError::UnmatchedClose) => has_unmatched_close(runs(commands(program@))),
            Err(ParseError::UnmatchedOpen) => !has_unmatched_close(runs(commands(program@)))
                && depth(runs(commands(program@)), runs(commands(program@)).len() as int) > 0,
        },
{
    let tokens = tokenize(program);
    let ghost body = runs(commands(program@));
    let ghost t = view_instrs(tokens@);
    proof {
        assert(t == body.push((Op::End, 1)));
        assert(t.drop_last() =~= body);
        lemma_commands_len(program@);
        lemma_runs_counts(commands(program@));
        lemma_commands_no_end(program@);
        lemma_runs_ops(commands(program@));
        lemma_depth_push_end(body, body.len() as int);
        if has_unmatched_close(body) {
            let k = choose|k: int| 0 <= k <= body.len() && #[trigger] depth(body, k) < 0;
            lemma_depth_push_end(body, k);
            assert(depth(t, k) < 0);
        }
        if has_unmatched_close(t) {
            let k = choose|k: int| 0 <= k <= t.len() && #[trigger] depth(t, k) < 0;
            if k <= body.len() {
                lemma_depth_push_end(body, k);
                assert(depth(body, k) < 0);
            } else {
                assert(depth(body, body.len() as int) < 0);
            }
        }
        assert(has_unmatched_close(t) == has_unmatched_close(body));
        assert(t[t.len() - 1] == (Op::End, 1nat));
        assert forall|i: int| 0 <= i < t.len() implies #[trigger] t[i].1 >= 1 by {
            if i < body.len() {
                assert(t[i] == body[i]);
            }
        }
        assert forall|i: int| 0 <= i < t.len() - 1 implies !(#[trigger] t[i].0 is End) by {
            assert(t[i] == body[i]);
        }
    }
    match find_matching_brackets(&tokens) {
        Ok(matching_brackets) => Ok(Program { tokens, matching_brackets }),
        Err(e) => Err(e),
    }
}

} // verus!
