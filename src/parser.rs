use vstd::prelude::*;

verus! {

/// What went wrong while matching brackets.
#[derive(Debug, Clone, Copy, PartialEq, Eq, Structural)]
pub enum ParserErrorKind {
    /// A `]` with no earlier unmatched `[`.
    UnmatchedClose,
    /// A `[` that is never closed.
    UnmatchedOpen,
}

/// Error returned by [`parse`].
#[derive(Debug, Clone, Copy, PartialEq, Eq, Structural)]
pub struct ParserError {
    pub kind: ParserErrorKind,
}

/// Classification of one source character.
#[derive(Debug, Clone, Copy, PartialEq, Eq, Structural)]
pub enum Token {
    Inc,
    Dec,
    Right,
    Left,
    Output,
    Input,
    JumpZero,
    JumpNonZero,
    Other,
}

/// An instruction while the program is being built: an opening jump may
/// not know its target yet.
#[derive(Debug, Clone, Copy, PartialEq, Eq, Structural)]
pub enum ParserOp {
    Inc(u8),
    Dec(u8),
    Right(usize),
    Left(usize),
    Output(u8),
    Input(u8),
    JumpZero(Option<usize>),
    JumpNonZero(usize),
}

/// A resolved instruction of a compiled program.
#[derive(Debug, Clone, Copy, PartialEq, Eq, Structural)]
pub enum Op {
    Inc(u8),
    Dec(u8),
    Right(usize),
    Left(usize),
    Output(u8),
    Input(u8),
    JumpZero(usize),
    JumpNonZero(usize),
}

pub open spec fn token_of(c: char) -> Token {
    if c == '+' {
        Token::Inc
    } else if c == '-' {
        Token::Dec
    } else if c == '>' {
        Token::Right
    } else if c == '<' {
        Token::Left
    } else if c == '.' {
        Token::Output
    } else if c == ',' {
        Token::Input
    } else if c == '[' {
        Token::JumpZero
    } else if c == ']' {
        Token::JumpNonZero
    } else {
        Token::Other
    }
}

impl Token {
    pub fn parse(c: char) -> (t: Token)
        ensures
            t == token_of(c),
    {
        match c {
            '+' => Token::Inc,
            '-' => Token::Dec,
            '>' => Token::Right,
            '<' => Token::Left,
            '.' => Token::Output,
            ',' => Token::Input,
            '[' => Token::JumpZero,
            ']' => Token::JumpNonZero,
            _ => Token::Other,
        }
    }
}


/// The instruction that `t` merges into `last`, if it does: a run of one
/// kind grows by one, byte-sized counts stopping at 255.
pub open spec fn merged(last: ParserOp, t: Token) -> Option<ParserOp> {
    match (last, t) {
        (ParserOp::Inc(n), Token::Inc) => if n < 255 { Some(ParserOp::Inc((n + 1) as u8)) } else { None },
        (ParserOp::Dec(n), Token::Dec) => if n < 255 { Some(ParserOp::Dec((n + 1) as u8)) } else { None },
        (ParserOp::Output(n), Token::Output) => if n < 255 { Some(ParserOp::Output((n + 1) as u8)) } else { None },
        (ParserOp::Input(n), Token::Input) => if n < 255 { Some(ParserOp::Input((n + 1) as u8)) } else { None },
        (ParserOp::Right(n), Token::Right) => if n < usize::MAX { Some(ParserOp::Right((n + 1) as usize)) } else { None },
        (ParserOp::Left(n), Token::Left) => if n < usize::MAX { Some(ParserOp::Left((n + 1) as usize)) } else { None },
        _ => None,
    }
}

/// The instruction that a token starts when it does not merge.
pub open spec fn fresh(t: Token) -> ParserOp {
    match t {
        Token::Inc => ParserOp::Inc(1),
        Token::Dec => ParserOp::Dec(1),
        Token::Right => ParserOp::Right(1),
        Token::Left => ParserOp::Left(1),
        Token::Output => ParserOp::Output(1),
        Token::Input => ParserOp::Input(1),
        Token::JumpZero => ParserOp::JumpZero(None),
        _ => ParserOp::JumpNonZero(0),
    }
}

/// Appends one token to a run-length encoded sequence.
pub open spec fn push_token(ops: Seq<ParserOp>, t: Token) -> Seq<ParserOp> {
    if t == Token::Other {
        ops
    } else if ops.len() > 0 && merged(ops.last(), t) is Some {
        ops.update(ops.len() - 1, merged(ops.last(), t)->0)
    } else {
        ops.push(fresh(t))
    }
}

/// The instructions of a source text with every jump target left out.
pub open spec fn skeleton(s: Seq<char>) -> Seq<ParserOp>
    decreases s.len(),
{
    if s.len() == 0 {
        seq![]
    } else {
        push_token(skeleton(s.drop_last()), token_of(s.last()))
    }
}

/// Forgets the target of a jump.
pub open spec fn unresolved(p: ParserOp) -> ParserOp {
    match p {
        ParserOp::JumpZero(_) => ParserOp::JumpZero(None),
        ParserOp::JumpNonZero(_) => ParserOp::JumpNonZero(0),
        _ => p,
    }
}

/// A resolved instruction seen as one under construction.
pub open spec fn as_parser_op(o: Op) -> ParserOp {
    match o {
        Op::Inc(n) => ParserOp::Inc(n),
        Op::Dec(n) => ParserOp::Dec(n),
        Op::Right(n) => ParserOp::Right(n),
        Op::Left(n) => ParserOp::Left(n),
        Op::Output(n) => ParserOp::Output(n),
        Op::Input(n) => ParserOp::Input(n),
        Op::JumpZero(t) => ParserOp::JumpZero(Some(t)),
        Op::JumpNonZero(t) => ParserOp::JumpNonZero(t),
    }
}

pub open spec fn bracket_delta(c: char) -> int {
    if c == '[' {
        1
    } else if c == ']' {
        -1
    } else {
        0
    }
}

/// Opened minus closed brackets in a source text.
pub open spec fn depth(s: Seq<char>) -> int
    decreases s.len(),
{
    if s.len() == 0 {
        0
    } else {
        depth(s.drop_last()) + bracket_delta(s.last())
    }
}

/// Some prefix closes more brackets than it opens.
pub open spec fn has_unmatched_close(s: Seq<char>) -> bool {
    exists|k: int| 0 <= k <= s.len() && #[trigger] depth(s.take(k)) < 0
}

pub open spec fn well_bracketed(s: Seq<char>) -> bool {
    !has_unmatched_close(s) && depth(s) == 0
}

pub open spec fn op_delta(o: Op) -> int {
    match o {
        Op::JumpZero(_) => 1,
        Op::JumpNonZero(_) => -1,
        _ => 0,
    }
}

/// Nesting depth of the jumps before index `k`.
pub open spec fn level(ops: Seq<Op>, k: int) -> int
    decreases k,
{
    if k <= 0 || k > ops.len() {
        0
    } else {
        level(ops, k - 1) + op_delta(ops[k - 1])
    }
}

/// The `JumpZero` at `i` and the `JumpNonZero` at `t` point at each other
/// and enclose a balanced body.
pub open spec fn pair_at(ops: Seq<Op>, i: int, t: int) -> bool {
    &&& 0 <= i < t < ops.len()
    &&& ops[i] == Op::JumpZero(t as usize)
    &&& ops[t] == Op::JumpNonZero(i as usize)
    &&& level(ops, t) == level(ops, i) + 1
    &&& forall|k: int| i < k <= t ==> #[trigger] level(ops, k) > level(ops, i)
}

/// Every jump targets the bracket that matches it.
pub open spec fn jumps_matched(ops: Seq<Op>) -> bool {
    &&& forall|i: int|
        0 <= i < ops.len() && (#[trigger] ops[i]) is JumpZero ==> pair_at(ops, i, ops[i]->JumpZero_0 as int)
    &&& forall|j: int|
        0 <= j < ops.len() && (#[trigger] ops[j]) is JumpNonZero ==> pair_at(ops, ops[j]->JumpNonZero_0 as int, j)
}

impl Op {
    /// Turns an instruction under construction into a resolved one; an
    /// opening jump that never found its target is an unmatched `[`.
    pub fn try_from(value: ParserOp) -> (r: Result<Op, ParserError>)
        ensures
            r is Err <==> value == ParserOp::JumpZero(None),
            r matches Ok(o) ==> as_parser_op(o) == value,
            r matches Err(e) ==> e.kind == ParserErrorKind::UnmatchedOpen,
    {
        match value {
            ParserOp::Inc(v) => Ok(Op::Inc(v)),
            ParserOp::Dec(v) => Ok(Op::Dec(v)),
            ParserOp::Right(v) => Ok(Op::Right(v)),
            ParserOp::Left(v) => Ok(Op::Left(v)),
            ParserOp::Output(v) => Ok(Op::Output(v)),
            ParserOp::Input(v) => Ok(Op::Input(v)),
            ParserOp::JumpZero(Some(v)) => Ok(Op::JumpZero(v)),
            ParserOp::JumpZero(None) => Err(ParserError { kind: ParserErrorKind::UnmatchedOpen }),
            ParserOp::JumpNonZero(v) => Ok(Op::JumpNonZero(v)),
        }
    }
}

spec fn pdelta(p: ParserOp) -> int {
    match p {
        ParserOp::JumpZero(_) => 1,
        ParserOp::JumpNonZero(_) => -1,
        _ => 0,
    }
}

spec fn plevel(p: Seq<ParserOp>, k: int) -> int
    decreases k,
{
    if k <= 0 || k > p.len() {
        0
    } else {
        plevel(p, k - 1) + pdelta(p[k - 1])
    }
}

spec fn ppair(p: Seq<ParserOp>, i: int, t: int) -> bool {
    &&& 0 <= i < t < p.len()
    &&& p[i] == ParserOp::JumpZero(Some(t as usize))
    &&& p[t] == ParserOp::JumpNonZero(i as usize)
    &&& plevel(p, t) == plevel(p, i) + 1
    &&& forall|k: int| i < k <= t ==> #[trigger] plevel(p, k) > plevel(p, i)
}

proof fn lemma_plevel_push_at(p: Seq<ParserOp>, x: ParserOp, k: int)
    requires
        0 <= k <= p.len(),
    ensures
        plevel(p.push(x), k) == plevel(p, k),
    decreases k,
{
    if k > 0 {
        lemma_plevel_push_at(p, x, k - 1);
        assert(p.push(x)[k - 1] == p[k - 1]);
    }
}

proof fn lemma_plevel_push(p: Seq<ParserOp>, x: ParserOp)
    ensures
        forall|k: int| 0 <= k <= p.len() ==> #[trigger] plevel(p.push(x), k) == plevel(p, k),
        plevel(p.push(x), p.len() + 1int) == plevel(p, p.len() as int) + pdelta(x),
{
    assert forall|k: int| 0 <= k <= p.len() implies #[trigger] plevel(p.push(x), k) == plevel(p, k) by {
        lemma_plevel_push_at(p, x, k);
    }
    lemma_plevel_push_at(p, x, p.len() as int);
    assert(p.push(x)[p.len() as int] == x);
    assert(plevel(p.push(x), p.len() + 1int) == plevel(p.push(x), p.len() as int) + pdelta(x));
}

proof fn lemma_plevel_update_at(p: Seq<ParserOp>, j: int, y: ParserOp, k: int)
    requires
        0 <= j < p.len(),
        pdelta(y) == pdelta(p[j]),
    ensures
        plevel(p.update(j, y), k) == plevel(p, k),
    decreases k,
{
    if k > 0 {
        lemma_plevel_update_at(p, j, y, k - 1);
    }
}

proof fn lemma_plevel_update(p: Seq<ParserOp>, j: int, y: ParserOp)
    requires
        0 <= j < p.len(),
        pdelta(y) == pdelta(p[j]),
    ensures
        forall|k: int| #[trigger] plevel(p.update(j, y), k) == plevel(p, k),
{
    assert forall|k: int| #[trigger] plevel(p.update(j, y), k) == plevel(p, k) by {
        lemma_plevel_update_at(p, j, y, k);
    }
}

proof fn lemma_level_resolved(out: Seq<Op>, p: Seq<ParserOp>, k: int)
    requires
        out.len() == p.len(),
        forall|m: int| 0 <= m < p.len() ==> as_parser_op(#[trigger] out[m]) == p[m],
    ensures
        level(out, k) == plevel(p, k),
    decreases k,
{
    if k > 0 && k <= p.len() {
        lemma_level_resolved(out, p, k - 1);
        assert(as_parser_op(out[k - 1]) == p[k - 1]);
    }
}

/// Builds the instruction sequence one token at a time.
struct Parser {
    ops: Vec<ParserOp>,
    opened_jumps: Vec<usize>,
}

impl Parser {
    /// The open jumps are on the stack in order, each at the nesting depth
    /// of its position; every closed jump is paired with its companion.
    spec fn wf(&self) -> bool {
        let p = self.ops@;
        let st = self.opened_jumps@;
        &&& plevel(p, p.len() as int) == st.len()
        &&& forall|d: int|
            0 <= d < st.len() ==> {
                &&& #[trigger] st[d] < p.len()
                &&& p[st[d] as int] == ParserOp::JumpZero(None)
                &&& plevel(p, st[d] as int) == d
            }
        &&& forall|d: int, k: int|
            #![trigger st[d], plevel(p, k)]
            0 <= d < st.len() && st[d] < k <= p.len() ==> plevel(p, k) > d
        &&& forall|i: int|
            0 <= i < p.len() && #[trigger] p[i] == ParserOp::JumpZero(None) ==> {
                &&& 0 <= plevel(p, i) < st.len()
                &&& st[plevel(p, i)] == i
            }
        &&& forall|i: int|
            0 <= i < p.len() && (#[trigger] p[i]) is JumpZero && p[i]->JumpZero_0 is Some
                ==> ppair(p, i, p[i]->JumpZero_0->0 as int)
        &&& forall|j: int|
            0 <= j < p.len() && (#[trigger] p[j]) is JumpNonZero ==> ppair(
                p,
                p[j]->JumpNonZero_0 as int,
                j,
            )
    }

    fn new() -> (r: Parser)
        ensures
            r.wf(),
            r.ops@ == Seq::<ParserOp>::empty(),
            r.opened_jumps@ == Seq::<usize>::empty(),
    {
        Parser { ops: Vec::new(), opened_jumps: Vec::new() }
    }

    /// Appends a run-length encodable token: merges it into the last
    /// instruction when it continues that run, starts a new one otherwise.
    fn push_simple(&mut self, t: Token)
        requires
            old(self).wf(),
            t != Token::Other,
            t != Token::JumpZero,
            t != Token::JumpNonZero,
        ensures
            final(self).wf(),
            final(self).opened_jumps@ == old(self).opened_jumps@,
            final(self).ops@.map_values(|o: ParserOp| unresolved(o)) == push_token(
                old(self).ops@.map_values(|o: ParserOp| unresolved(o)),
                t,
            ),
    {
        let ghost p = self.ops@;
        let ghost e = p.map_values(|o: ParserOp| unresolved(o));
        let n = self.ops.len();
        if n > 0 {
            assert(e.last() == unresolved(p[n - 1]));
            if let Some(m) = merge(self.ops[n - 1], t) {
                proof {
                    lemma_plevel_update(p, n - 1, m);
                }
                self.ops[n - 1] = m;
                assert(self.ops@.map_values(|o: ParserOp| unresolved(o)) =~= push_token(e, t));
                return;
            }
        }
        let f = start(t);
        proof {
            lemma_plevel_push(p, f);
        }
        self.ops.push(f);
        assert(self.ops@.map_values(|o: ParserOp| unresolved(o)) =~= push_token(e, t));
    }

    /// Appends an opening jump whose target is not known yet.
    fn open_jump(&mut self)
        requires
            old(self).wf(),
        ensures
            final(self).wf(),
            final(self).ops@ == old(self).ops@.push(ParserOp::JumpZero(None)),
            final(self).opened_jumps@ == old(self).opened_jumps@.push(old(self).ops@.len() as usize),
    {
        let n = self.ops.len();
        proof {
            lemma_plevel_push(self.ops@, ParserOp::JumpZero(None));
        }
        self.opened_jumps.push(n);
        self.ops.push(ParserOp::JumpZero(None));
    }

    /// Appends a closing jump paired with the innermost open one; returns
    /// false, changing nothing, when no jump is open.
    fn close_jump(&mut self) -> (closed: bool)
        requires
            old(self).wf(),
        ensures
            closed == (old(self).opened_jumps@.len() > 0),
            closed ==> final(self).wf(),
            closed ==> final(self).opened_jumps@ == old(self).opened_jumps@.drop_last(),
            closed ==> final(self).ops@.map_values(|o: ParserOp| unresolved(o)) == old(
                self,
            ).ops@.map_values(|o: ParserOp| unresolved(o)).push(ParserOp::JumpNonZero(0)),
            !closed ==> final(self).ops@ == old(self).ops@,
            !closed ==> final(self).opened_jumps@ == old(self).opened_jumps@,
    {
        let to = self.ops.len();
        match self.opened_jumps.pop() {
            None => false,
            Some(from) => {
                let ghost p = self.ops@;
                let ghost st = old(self).opened_jumps@;
                assert(st[st.len() - 1] == from);
                proof {
                    lemma_plevel_update(p, from as int, ParserOp::JumpZero(Some(to)));
                }
                self.ops[from] = ParserOp::JumpZero(Some(to));
                let ghost p1 = self.ops@;
                proof {
                    lemma_plevel_push(p1, ParserOp::JumpNonZero(from));
                }
                self.ops.push(ParserOp::JumpNonZero(from));
                assert(self.ops@.map_values(|o: ParserOp| unresolved(o)) =~= p.map_values(
                    |o: ParserOp| unresolved(o),
                ).push(ParserOp::JumpNonZero(0)));
                true
            },
        }
    }
}

fn merge(last: ParserOp, t: Token) -> (r: Option<ParserOp>)
    ensures
        r == merged(last, t),
{
    match (last, t) {
        (ParserOp::Inc(n), Token::Inc) if n < 255 => Some(ParserOp::Inc(n + 1)),
        (ParserOp::Dec(n), Token::Dec) if n < 255 => Some(ParserOp::Dec(n + 1)),
        (ParserOp::Output(n), Token::Output) if n < 255 => Some(ParserOp::Output(n + 1)),
        (ParserOp::Input(n), Token::Input) if n < 255 => Some(ParserOp::Input(n + 1)),
        (ParserOp::Right(n), Token::Right) if n < usize::MAX => Some(ParserOp::Right(n + 1)),
        (ParserOp::Left(n), Token::Left) if n < usize::MAX => Some(ParserOp::Left(n + 1)),
        _ => None,
    }
}

fn start(t: Token) -> (r: ParserOp)
    ensures
        r == fresh(t),
{
    match t {
        Token::Inc => ParserOp::Inc(1),
        Token::Dec => ParserOp::Dec(1),
        Token::Right => ParserOp::Right(1),
        Token::Left => ParserOp::Left(1),
        Token::Output => ParserOp::Output(1),
        Token::Input => ParserOp::Input(1),
        Token::JumpZero => ParserOp::JumpZero(None),
        _ => ParserOp::JumpNonZero(0),
    }
}

proof fn lemma_resolved_matched(out: Seq<Op>, p: Seq<ParserOp>)
    requires
        out.len() == p.len(),
        forall|m: int| 0 <= m < p.len() ==> as_parser_op(#[trigger] out[m]) == p[m],
        forall|i: int|
            0 <= i < p.len() && (#[trigger] p[i]) is JumpZero && p[i]->JumpZero_0 is Some
                ==> ppair(p, i, p[i]->JumpZero_0->0 as int),
        forall|j: int|
            0 <= j < p.len() && (#[trigger] p[j]) is JumpNonZero ==> ppair(
                p,
                p[j]->JumpNonZero_0 as int,
                j,
            ),
    ensures
        jumps_matched(out),
{
    assert forall|k: int| #[trigger] level(out, k) == plevel(p, k) by {
        lemma_level_resolved(out, p, k);
    }
    assert forall|i: int|
        0 <= i < out.len() && (#[trigger] out[i]) is JumpZero implies pair_at(
        out,
        i,
        out[i]->JumpZero_0 as int,
    ) by {
        assert(as_parser_op(out[i]) == p[i]);
        let t = out[i]->JumpZero_0 as int;
        assert(ppair(p, i, t));
        assert(as_parser_op(out[t]) == p[t]);
    }
    assert forall|j: int|
        0 <= j < out.len() && (#[trigger] out[j]) is JumpNonZero implies pair_at(
        out,
        out[j]->JumpNonZero_0 as int,
        j,
    ) by {
        assert(as_parser_op(out[j]) == p[j]);
        let i = out[j]->JumpNonZero_0 as int;
        assert(ppair(p, i, j));
        assert(as_parser_op(out[i]) == p[i]);
    }
}

/// Compiles source text into a flat instruction sequence: characters other
/// than the eight operators are skipped, runs of one operator are merged,
/// and each jump gets the index of its matching bracket.
pub fn parse(buffer: String) -> (r: Result<Vec<Op>, ParserError>)
    ensures
        r is Ok <==> well_bracketed(buffer@),
        r matches Err(e) ==> e.kind == (if has_unmatched_close(buffer@) {
            ParserErrorKind::UnmatchedClose
        } else {
            ParserErrorKind::UnmatchedOpen
        }),
        r matches Ok(ops) ==> ops@.map_values(|o: Op| unresolved(as_parser_op(o))) == skeleton(
            buffer@,
        ),
        r matches Ok(ops) ==> jumps_matched(ops@),
{
    let ghost s = buffer@;
    let mut parser = Parser::new();
    assert(s.take(0) =~= Seq::<char>::empty());
    for c in it: buffer.chars()
        invariant
            it.seq() == s,
            buffer@ == s,
            parser.wf(),
            parser.ops@.map_values(|o: ParserOp| unresolved(o)) == skeleton(
                s.take(it.index() as int),
            ),
            parser.opened_jumps@.len() == depth(s.take(it.index() as int)),
            forall|k: int| 0 <= k <= it.index() ==> depth(#[trigger] s.take(k)) >= 0,
    {
        let ghost i = it.index() as int;
        assert(s.take(i + 1).drop_last() =~= s.take(i));
        assert(s.take(i + 1).last() == c);
        let t = Token::parse(c);
        match t {
            Token::Other => {},
            Token::JumpZero => {
                let ghost e = parser.ops@.map_values(|o: ParserOp| unresolved(o));
                parser.open_jump();
                assert(parser.ops@.map_values(|o: ParserOp| unresolved(o)) =~= push_token(e, t));
            },
            Token::JumpNonZero => {
                let ghost e = parser.ops@.map_values(|o: ParserOp| unresolved(o));
                if !parser.close_jump() {
                    assert(depth(s.take(i + 1)) < 0);
                    assert(i + 1 <= s.len());
                    assert(has_unmatched_close(s));
                    return Err(ParserError { kind: ParserErrorKind::UnmatchedClose });
                }
                assert(parser.ops@.map_values(|o: ParserOp| unresolved(o)) =~= push_token(e, t));
            },
            _ => {
                parser.push_simple(t);
            },
        }
    }
    assert(s.take(s.len() as int) =~= s);
    if parser.opened_jumps.len() > 0 {
        return Err(ParserError { kind: ParserErrorKind::UnmatchedOpen });
    }
    let mut out: Vec<Op> = Vec::new();
    let n = parser.ops.len();
    let mut k: usize = 0;
    while k < n
        invariant
            parser.wf(),
            parser.opened_jumps@.len() == 0,
            n == parser.ops@.len(),
            k <= n,
            out@.len() == k,
            forall|m: int| 0 <= m < k ==> as_parser_op(#[trigger] out@[m]) == parser.ops@[m],
        decreases n - k,
    {
        match Op::try_from(parser.ops[k]) {
            Ok(o) => out.push(o),
            Err(e) => return Err(e),
        }
        k += 1;
    }
    proof {
        lemma_resolved_matched(out@, parser.ops@);
        assert(out@.map_values(|o: Op| unresolved(as_parser_op(o))) =~= parser.ops@.map_values(
            |o: ParserOp| unresolved(o),
        ));
    }
    Ok(out)
}

proof fn lemma_depth_concat(a: Seq<char>, b: Seq<char>)
    ensures
        depth(a + b) == depth(a) + depth(b),
    decreases b.len(),
{
    if b.len() == 0 {
        assert(a + b =~= a);
    } else {
        lemma_depth_concat(a, b.drop_last());
        assert((a + b).drop_last() =~= a + b.drop_last());
        assert((a + b).last() == b.last());
    }
}

/// One `]` inserted anywhere into a well-bracketed text is unmatched, so
/// [`parse`] fails with `UnmatchedClose`; one `[` inserted anywhere stays
/// open with no `]` unmatched, so it fails with `UnmatchedOpen`.
pub proof fn lemma_extra_bracket(w: Seq<char>, k: int)
    requires
        well_bracketed(w),
        0 <= k <= w.len(),
    ensures
        has_unmatched_close(w.take(k) + seq![']'] + w.skip(k)),
        !has_unmatched_close(w.take(k) + seq!['['] + w.skip(k)),
        depth(w.take(k) + seq!['['] + w.skip(k)) == 1,
{
    let a = w.take(k);
    let b = w.skip(k);
    assert(a + b =~= w);
    lemma_depth_concat(a, b);
    let one: Seq<char> = seq![']'];
    assert(one.drop_last() =~= Seq::<char>::empty());
    assert(depth(Seq::<char>::empty()) == 0);
    assert(depth(one) == -1);
    lemma_depth_concat(a, one);
    lemma_depth_concat(a + one, b);
    let c = a + one + b;
    assert(c.take(c.len() as int) =~= c);
    assert(depth(c.take(c.len() as int)) < 0);
    let open: Seq<char> = seq!['['];
    assert(open.drop_last() =~= Seq::<char>::empty());
    assert(depth(open) == 1);
    lemma_depth_concat(a, open);
    lemma_depth_concat(a + open, b);
    let o = a + open + b;
    assert forall|j: int| 0 <= j <= o.len() implies depth(#[trigger] o.take(j)) >= 0 by {
        if j <= k {
            assert(o.take(j) =~= w.take(j));
            assert(depth(w.take(j)) >= 0);
        } else {
            let bj = b.take(j - k - 1);
            assert(o.take(j) =~= a + open + bj);
            assert(w.take(j - 1) =~= a + bj);
            lemma_depth_concat(a + open, bj);
            lemma_depth_concat(a, bj);
            assert(depth(w.take(j - 1)) >= 0);
        }
    }
}

} // verus!
