//! The operation tree, the recursive-descent parser with explicit
//! bracket-matching failure, and the peephole optimizer.

use vstd::prelude::*;

verus! {

/// One operation of the tape language. Counts are 1 straight out of the
/// parser; the optimizer collapses runs into larger counts.
#[derive(Debug, PartialEq)]
pub enum Op {
    IncPointer(usize),
    DecPointer(usize),
    IncVal(u8),
    DecVal(u8),
    Print,
    Read,
    While { ops: Vec<Op> },
    SetRegisterToZero,
}

/// The mathematical shape of an operation: the same tree with every nested
/// body abstracted to a sequence. Contracts speak of this form.
pub enum SpecOp {
    IncPointer(usize),
    DecPointer(usize),
    IncVal(u8),
    DecVal(u8),
    Print,
    Read,
    While(Seq<SpecOp>),
    SetRegisterToZero,
}

/// The abstract form of one operation.
pub open spec fn view_op(op: Op) -> SpecOp
    decreases op,
{
    match op {
        Op::IncPointer(n) => SpecOp::IncPointer(n),
        Op::DecPointer(n) => SpecOp::DecPointer(n),
        Op::IncVal(n) => SpecOp::IncVal(n),
        Op::DecVal(n) => SpecOp::DecVal(n),
        Op::Print => SpecOp::Print,
        Op::Read => SpecOp::Read,
        Op::While { ops } => {
            proof {
                assert(decreases_to!(op => ops));
                assert(decreases_to!(ops => ops@));
            }
            SpecOp::While(view_ops(ops@))
        },
        Op::SetRegisterToZero => SpecOp::SetRegisterToZero,
    }
}

/// The abstract form of an operation sequence, element by element.
pub open spec fn view_ops(s: Seq<Op>) -> Seq<SpecOp>
    decreases s,
{
    if s.len() == 0 {
        Seq::empty()
    } else {
        proof {
            assert(decreases_to!(s => s[0]));
        }
        seq![view_op(s[0])] + view_ops(s.subrange(1, s.len() as int))
    }
}

/// `view_ops` maps `view_op` over the sequence.
pub proof fn lemma_view_ops(s: Seq<Op>)
    ensures
        view_ops(s).len() == s.len(),
        forall|i: int| 0 <= i < s.len() ==> view_ops(s)[i] == view_op(s[i]),
    decreases s.len(),
{
    if s.len() > 0 {
        lemma_view_ops(s.subrange(1, s.len() as int));
    }
}

/// Appending one operation appends its abstract form.
pub proof fn lemma_view_ops_push(s: Seq<Op>, op: Op)
    ensures
        view_ops(s.push(op)) == view_ops(s).push(view_op(op)),
    decreases s.len(),
{
    let t = s.push(op);
    if s.len() == 0 {
        assert(t.subrange(1, t.len() as int) =~= Seq::<Op>::empty());
        assert(view_ops(Seq::<Op>::empty()) =~= Seq::<SpecOp>::empty());
        assert(t[0] == op);
        assert(view_ops(s.push(op)) =~= view_ops(s).push(view_op(op)));
    } else {
        assert(t.subrange(1, t.len() as int) =~= s.subrange(1, s.len() as int).push(op));
        lemma_view_ops_push(s.subrange(1, s.len() as int), op);
        assert(t[0] == s[0]);
        assert(view_ops(s.push(op)) =~= view_ops(s).push(view_op(op)));
    }
}

/// The fatal parse failure: a `[` without a matching `]` at its depth.
#[derive(Debug, Clone, Copy, PartialEq, Eq, Structural)]
pub enum ParseError {
    UnbalancedBrackets,
}

/// The primitive operation a source character maps to, or `None` for a
/// character that is skipped as a comment. Brackets are handled separately.
pub open spec fn char_op(c: char) -> Option<SpecOp> {
    if c == '>' {
        Some(SpecOp::IncPointer(1))
    } else if c == '<' {
        Some(SpecOp::DecPointer(1))
    } else if c == '+' {
        Some(SpecOp::IncVal(1))
    } else if c == '-' {
        Some(SpecOp::DecVal(1))
    } else if c == '.' {
        Some(SpecOp::Print)
    } else if c == ',' {
        Some(SpecOp::Read)
    } else {
        None
    }
}

/// Parses `code` from position `i` up to the first unmatched `]` or the end.
/// Returns the operations recognized and the position parsing stopped at:
/// the index of the terminating `]`, or `code.len()`. Returns `None` when a
/// `[` is not closed by a `]` at its own depth.
pub open spec fn parse_from(code: Seq<char>, i: int) -> Option<(Seq<SpecOp>, int)>
    decreases code.len() - i,
{
    if i < 0 || i >= code.len() {
        Some((Seq::empty(), code.len() as int))
    } else if code[i] == ']' {
        Some((Seq::empty(), i))
    } else if code[i] == '[' {
        match parse_from(code, i + 1) {
            None => None,
            Some((body, j)) => {
                if i < j && j < code.len() && code[j] == ']' {
                    match parse_from(code, j + 1) {
                        None => None,
                        Some((rest, k)) => Some((seq![SpecOp::While(body)] + rest, k)),
                    }
                } else {
                    None
                }
            },
        }
    } else {
        match parse_from(code, i + 1) {
            None => None,
            Some((rest, k)) => match char_op(code[i]) {
                Some(op) => Some((seq![op] + rest, k)),
                None => Some((rest, k)),
            },
        }
    }
}

/// What parsing means for a whole source text.
pub open spec fn spec_parse(code: Seq<char>) -> Option<(Seq<SpecOp>, int)> {
    parse_from(code, 0)
}

fn parse_at(code: &[char], start: usize) -> (r: Result<(Vec<Op>, usize), ParseError>)
    requires
        start <= code@.len(),
    ensures
        match r {
            Ok((ops, end)) => {
                &&& parse_from(code@, start as int) == Some((view_ops(ops@), end as int))
                &&& start <= end <= code@.len()
            },
            Err(e) => {
                &&& parse_from(code@, start as int) is None
                &&& e == ParseError::UnbalancedBrackets
            },
        },
    decreases code@.len() - start,
{
    let mut ops: Vec<Op> = Vec::new();
    let mut i = start;
    proof {
        assert(view_ops(ops@) =~= Seq::<SpecOp>::empty());
    }
    while i < code.len()
        invariant
            start <= i <= code@.len(),
            match parse_from(code@, i as int) {
                Some((rest, end)) => parse_from(code@, start as int) == Some(
                    (view_ops(ops@) + rest, end),
                ),
                None => parse_from(code@, start as int) is None,
            },
        decreases code@.len() - i,
    {
        let ch = code[i];
        let ghost prev_ops = ops@;
        match ch {
            '[' => {
                match parse_at(code, i + 1) {
                    Err(e) => {
                        return Err(e);
                    },
                    Ok((body, j)) => {
                        if j < code.len() && code[j] == ']' {
                            let ghost body_view = view_ops(body@);
                            let w = Op::While { ops: body };
                            proof {
                                assert(view_op(w) == SpecOp::While(body_view));
                            }
                            ops.push(w);
                            proof {
                                lemma_view_ops_push(prev_ops, w);
                                if let Some((rest, end)) = parse_from(code@, j + 1) {
                                    lemma_accum(view_ops(prev_ops), view_op(w), rest);
                                }
                            }
                            i = j;
                        } else {
                            return Err(ParseError::UnbalancedBrackets);
                        }
                    },
                }
            },
            ']' => {
                assert(view_ops(ops@) + Seq::<SpecOp>::empty() =~= view_ops(ops@));
                return Ok((ops, i));
            },
            _ => {
                let op = match ch {
                    '>' => Some(Op::IncPointer(1)),
                    '<' => Some(Op::DecPointer(1)),
                    '+' => Some(Op::IncVal(1)),
                    '-' => Some(Op::DecVal(1)),
                    '.' => Some(Op::Print),
                    ',' => Some(Op::Read),
                    _ => None,
                };
                proof {
                    match &op {
                        Some(o) => assert(char_op(ch) == Some(view_op(*o))),
                        None => assert(char_op(ch) is None),
                    }
                }
                if let Some(o) = op {
                    let ghost o_spec = view_op(o);
                    ops.push(o);
                    proof {
                        lemma_view_ops_push(prev_ops, o);
                        if let Some((rest, end)) = parse_from(code@, i as int + 1) {
                            lemma_accum(view_ops(prev_ops), o_spec, rest);
                        }
                    }
                }
            },
        }
        i = i + 1;
    }
    assert(view_ops(ops@) + Seq::<SpecOp>::empty() =~= view_ops(ops@));
    Ok((ops, i))
}

proof fn lemma_accum(pre: Seq<SpecOp>, op: SpecOp, rest: Seq<SpecOp>)
    ensures
        pre + (seq![op] + rest) == pre.push(op) + rest,
{
    assert(pre + (seq![op] + rest) =~= pre.push(op) + rest);
}

/// Parses source characters into an operation sequence, together with the
/// count of characters consumed: the whole of `code`, or the position of the
/// first unmatched `]`, which an enclosing parse would consume as its
/// terminator. Fails exactly when a `[` has no matching `]`.
pub fn get_ast(code: &[char]) -> (r: Result<(Vec<Op>, usize), ParseError>)
    ensures
        match r {
            Ok((ops, consumed)) => {
                &&& spec_parse(code@) == Some((view_ops(ops@), consumed as int))
                &&& consumed <= code@.len()
            },
            Err(e) => {
                &&& spec_parse(code@) is None
                &&& e == ParseError::UnbalancedBrackets
            },
        },
{
    parse_at(code, 0)
}

/// Operations the optimizer may collapse: pointer moves and cell adjustments.
pub open spec fn is_mergeable(op: SpecOp) -> bool {
    match op {
        SpecOp::IncPointer(_) => true,
        SpecOp::DecPointer(_) => true,
        SpecOp::IncVal(_) => true,
        SpecOp::DecVal(_) => true,
        _ => false,
    }
}

/// Whether two operations are of the same mergeable kind.
pub open spec fn same_kind(a: SpecOp, b: SpecOp) -> bool {
    match (a, b) {
        (SpecOp::IncPointer(_), SpecOp::IncPointer(_)) => true,
        (SpecOp::DecPointer(_), SpecOp::DecPointer(_)) => true,
        (SpecOp::IncVal(_), SpecOp::IncVal(_)) => true,
        (SpecOp::DecVal(_), SpecOp::DecVal(_)) => true,
        _ => false,
    }
}

/// One operation carrying the summed counts of two same-kind operations.
/// Pointer counts wrap at the machine width, cell counts modulo 256.
pub open spec fn merge2(a: SpecOp, b: SpecOp) -> SpecOp {
    match (a, b) {
        (SpecOp::IncPointer(x), SpecOp::IncPointer(y)) => SpecOp::IncPointer(
            vstd::wrapping::usize_specs::wrapping_add(x, y),
        ),
        (SpecOp::DecPointer(x), SpecOp::DecPointer(y)) => SpecOp::DecPointer(
            vstd::wrapping::usize_specs::wrapping_add(x, y),
        ),
        (SpecOp::IncVal(x), SpecOp::IncVal(y)) => SpecOp::IncVal(
            vstd::wrapping::u8_specs::wrapping_add(x, y),
        ),
        (SpecOp::DecVal(x), SpecOp::DecVal(y)) => SpecOp::DecVal(
            vstd::wrapping::u8_specs::wrapping_add(x, y),
        ),
        _ => a,
    }
}

/// The pending run being accumulated, emitted once the run ends.
pub open spec fn flush(pend: Option<SpecOp>) -> Seq<SpecOp> {
    match pend {
        None => Seq::empty(),
        Some(p) => seq![p],
    }
}

/// A loop whose optimized body is a single one-step cell adjustment is the
/// reset idiom and becomes an explicit zero assignment.
pub open spec fn loop_or_reset(body: Seq<SpecOp>) -> SpecOp {
    if body == seq![SpecOp::IncVal(1)] || body == seq![SpecOp::DecVal(1)] {
        SpecOp::SetRegisterToZero
    } else {
        SpecOp::While(body)
    }
}

/// One left-to-right scan from position `i`, with `pend` the run being
/// accumulated. Runs of one mergeable kind collapse into one operation with
/// the summed count; `print`, `read` and the zero reset are emitted verbatim
/// and end the run; loop bodies are optimized recursively and the reset
/// idiom is replaced.
pub open spec fn compact_from(s: Seq<SpecOp>, i: int, pend: Option<SpecOp>) -> Seq<SpecOp>
    decreases s, s.len() - i,
{
    if i < 0 || i >= s.len() {
        flush(pend)
    } else {
        match s[i] {
            SpecOp::While(b) => {
                proof {
                    assert(decreases_to!(s => s[i]));
                    assert(decreases_to!(s[i] => b));
                }
                flush(pend) + seq![loop_or_reset(compact_from(b, 0, None))] + compact_from(
                    s,
                    i + 1,
                    None,
                )
            },
            SpecOp::Print => flush(pend) + seq![SpecOp::Print] + compact_from(s, i + 1, None),
            SpecOp::Read => flush(pend) + seq![SpecOp::Read] + compact_from(s, i + 1, None),
            SpecOp::SetRegisterToZero => flush(pend) + seq![SpecOp::SetRegisterToZero]
                + compact_from(s, i + 1, None),
            _ => {
                match pend {
                    None => compact_from(s, i + 1, Some(s[i])),
                    Some(p) => {
                        if same_kind(p, s[i]) {
                            compact_from(s, i + 1, Some(merge2(p, s[i])))
                        } else {
                            seq![p] + compact_from(s, i + 1, Some(s[i]))
                        }
                    },
                }
            },
        }
    }
}

/// What the optimizer returns for an operation sequence.
pub open spec fn spec_compact(s: Seq<SpecOp>) -> Seq<SpecOp> {
    compact_from(s, 0, None)
}

/// The abstract form of the pending run.
pub open spec fn view_pend(pend: Option<Op>) -> Option<SpecOp> {
    match pend {
        None => None,
        Some(p) => Some(view_op(p)),
    }
}

/// Rewrites an operation sequence into an equivalent, typically shorter one:
/// runs of identical-kind pointer moves and cell adjustments collapse into
/// one operation carrying the summed count, loop bodies are optimized
/// recursively, and a loop whose body reduces to a single one-step cell
/// adjustment becomes the explicit reset-to-zero operation.
pub fn compact(ast: &[Op]) -> (r: Vec<Op>)
    ensures
        view_ops(r@) == spec_compact(view_ops(ast@)),
    decreases ast@,
{
    let ghost sv = view_ops(ast@);
    proof {
        lemma_view_ops(ast@);
    }
    let mut compacted_ast: Vec<Op> = Vec::new();
    let mut current_op: Option<Op> = None;
    let mut i: usize = 0;
    proof {
        assert(view_ops(compacted_ast@) =~= Seq::<SpecOp>::empty());
    }
    while i < ast.len()
        invariant
            i <= ast@.len(),
            sv == view_ops(ast@),
            sv.len() == ast@.len(),
            forall|k: int| 0 <= k < ast@.len() ==> sv[k] == view_op(ast@[k]),
            spec_compact(sv) == view_ops(compacted_ast@) + compact_from(
                sv,
                i as int,
                view_pend(current_op),
            ),
        decreases ast@.len() - i,
    {
        let ghost prev_out = compacted_ast@;
        let ghost prev_pend = view_pend(current_op);
        let op = &ast[i];
        match op {
            Op::While { ops: body } => {
                proof {
                    assert(decreases_to!(ast@ => ast@[i as int]));
                    assert(decreases_to!(ast@[i as int] => ast@[i as int]->ops));
                    assert(decreases_to!(ast@[i as int]->ops => body@));
                }
                let compacted_ops = compact(body.as_slice());
                let ghost cv = view_ops(compacted_ops@);
                proof {
                    lemma_view_ops(compacted_ops@);
                }
                if let Some(p) = current_op {
                    compacted_ast.push(p);
                    proof {
                        lemma_view_ops_push(prev_out, p);
                    }
                }
                current_op = None;
                let ghost mid_out = compacted_ast@;
                let is_idiom = if compacted_ops.len() == 1 {
                    match &compacted_ops[0] {
                        Op::IncVal(n) => *n == 1,
                        Op::DecVal(n) => *n == 1,
                        _ => false,
                    }
                } else {
                    false
                };
                proof {
                    if compacted_ops@.len() == 1 {
                        assert(cv[0] == view_op(compacted_ops@[0]));
                    }
                    if is_idiom {
                        assert(cv =~= seq![SpecOp::IncVal(1)] || cv =~= seq![SpecOp::DecVal(1)]);
                    } else {
                        if cv == seq![SpecOp::IncVal(1)] {
                            assert(view_op(compacted_ops@[0]) == SpecOp::IncVal(1));
                            assert(false);
                        }
                        if cv == seq![SpecOp::DecVal(1)] {
                            assert(view_op(compacted_ops@[0]) == SpecOp::DecVal(1));
                            assert(false);
                        }
                    }
                }
                if is_idiom {
                    compacted_ast.push(Op::SetRegisterToZero);
                    proof {
                        lemma_view_ops_push(mid_out, Op::SetRegisterToZero);
                    }
                } else {
                    let w = Op::While { ops: compacted_ops };
                    proof {
                        assert(view_op(w) == SpecOp::While(cv));
                    }
                    compacted_ast.push(w);
                    proof {
                        lemma_view_ops_push(mid_out, w);
                    }
                }
                proof {
                    lemma_flush_emit(
                        view_ops(prev_out),
                        prev_pend,
                        loop_or_reset(compact_from(view_ops(body@), 0, None)),
                        compact_from(sv, i as int + 1, None),
                    );
                }
            },
            Op::Print => {
                if let Some(p) = current_op {
                    compacted_ast.push(p);
                    proof {
                        lemma_view_ops_push(prev_out, p);
                    }
                }
                current_op = None;
                let ghost mid_out = compacted_ast@;
                compacted_ast.push(Op::Print);
                proof {
                    lemma_view_ops_push(mid_out, Op::Print);
                    lemma_flush_emit(
                        view_ops(prev_out),
                        prev_pend,
                        SpecOp::Print,
                        compact_from(sv, i as int + 1, None),
                    );
                }
            },
            Op::Read => {
                if let Some(p) = current_op {
                    compacted_ast.push(p);
                    proof {
                        lemma_view_ops_push(prev_out, p);
                    }
                }
                current_op = None;
                let ghost mid_out = compacted_ast@;
                compacted_ast.push(Op::Read);
                proof {
                    lemma_view_ops_push(mid_out, Op::Read);
                    lemma_flush_emit(
                        view_ops(prev_out),
                        prev_pend,
                        SpecOp::Read,
                        compact_from(sv, i as int + 1, None),
                    );
                }
            },
            Op::SetRegisterToZero => {
                if let Some(p) = current_op {
                    compacted_ast.push(p);
                    proof {
                        lemma_view_ops_push(prev_out, p);
                    }
                }
                current_op = None;
                let ghost mid_out = compacted_ast@;
                compacted_ast.push(Op::SetRegisterToZero);
                proof {
                    lemma_view_ops_push(mid_out, Op::SetRegisterToZero);
                    lemma_flush_emit(
                        view_ops(prev_out),
                        prev_pend,
                        SpecOp::SetRegisterToZero,
                        compact_from(sv, i as int + 1, None),
                    );
                }
            },
            Op::IncPointer(n) => {
                match current_op {
                    Some(Op::IncPointer(m)) => {
                        current_op = Some(Op::IncPointer(m.wrapping_add(*n)));
                    },
                    Some(other) => {
                        proof {
                            lemma_view_ops_push(prev_out, other);
                            lemma_accum(
                                view_ops(prev_out),
                                view_op(other),
                                compact_from(sv, i as int + 1, Some(sv[i as int])),
                            );
                        }
                        compacted_ast.push(other);
                        current_op = Some(Op::IncPointer(*n));
                    },
                    None => {
                        current_op = Some(Op::IncPointer(*n));
                    },
                }
            },
            Op::DecPointer(n) => {
                match current_op {
                    Some(Op::DecPointer(m)) => {
                        current_op = Some(Op::DecPointer(m.wrapping_add(*n)));
                    },
                    Some(other) => {
                        proof {
                            lemma_view_ops_push(prev_out, other);
                            lemma_accum(
                                view_ops(prev_out),
                                view_op(other),
                                compact_from(sv, i as int + 1, Some(sv[i as int])),
                            );
                        }
                        compacted_ast.push(other);
                        current_op = Some(Op::DecPointer(*n));
                    },
                    None => {
                        current_op = Some(Op::DecPointer(*n));
                    },
                }
            },
            Op::IncVal(n) => {
                match current_op {
                    Some(Op::IncVal(m)) => {
                        current_op = Some(Op::IncVal(m.wrapping_add(*n)));
                    },
                    Some(other) => {
                        proof {
                            lemma_view_ops_push(prev_out, other);
                            lemma_accum(
                                view_ops(prev_out),
                                view_op(other),
                                compact_from(sv, i as int + 1, Some(sv[i as int])),
                            );
                        }
                        compacted_ast.push(other);
                        current_op = Some(Op::IncVal(*n));
                    },
                    None => {
                        current_op = Some(Op::IncVal(*n));
                    },
                }
            },
            Op::DecVal(n) => {
                match current_op {
                    Some(Op::DecVal(m)) => {
                        current_op = Some(Op::DecVal(m.wrapping_add(*n)));
                    },
                    Some(other) => {
                        proof {
                            lemma_view_ops_push(prev_out, other);
                            lemma_accum(
                                view_ops(prev_out),
                                view_op(other),
                                compact_from(sv, i as int + 1, Some(sv[i as int])),
                            );
                        }
                        compacted_ast.push(other);
                        current_op = Some(Op::DecVal(*n));
                    },
                    None => {
                        current_op = Some(Op::DecVal(*n));
                    },
                }
            },
        }
        i = i + 1;
    }
    if let Some(p) = current_op {
        let ghost prev_out = compacted_ast@;
        compacted_ast.push(p);
        proof {
            lemma_view_ops_push(prev_out, p);
            assert(view_ops(compacted_ast@) =~= view_ops(prev_out) + flush(Some(view_op(p))));
        }
    } else {
        assert(view_ops(compacted_ast@) + flush(None) =~= view_ops(compacted_ast@));
    }
    compacted_ast
}

/// Rearranges an emit step: flushing the run and emitting one operation is
/// the same as appending both to the output.
proof fn lemma_flush_emit(out: Seq<SpecOp>, pend: Option<SpecOp>, emitted: SpecOp, rest: Seq<SpecOp>)
    ensures
        out + (flush(pend) + seq![emitted] + rest) == match pend {
            None => out.push(emitted) + rest,
            Some(p) => out.push(p).push(emitted) + rest,
        },
{
    match pend {
        None => {
            assert(out + (flush(pend) + seq![emitted] + rest) =~= out.push(emitted) + rest);
        },
        Some(p) => {
            assert(out + (flush(pend) + seq![emitted] + rest) =~= out.push(p).push(emitted)
                + rest);
        },
    }
}

/// A sequence in the optimizer's normal form: no two adjacent operations of
/// one mergeable kind, and every loop body in normal form and not the reset
/// idiom.
pub open spec fn normalized(s: Seq<SpecOp>) -> bool
    decreases s,
{
    if s.len() == 0 {
        true
    } else {
        proof {
            assert(decreases_to!(s => s[0]));
        }
        &&& normalized_op(s[0])
        &&& (s.len() > 1 ==> !same_kind(s[0], s[1]))
        &&& normalized(s.subrange(1, s.len() as int))
    }
}

/// One operation in normal form: a loop body is itself in normal form and is
/// not the recognized reset idiom.
pub open spec fn normalized_op(op: SpecOp) -> bool
    decreases op,
{
    match op {
        SpecOp::While(b) => {
            proof {
                assert(decreases_to!(op => b));
            }
            &&& normalized(b)
            &&& b != seq![SpecOp::IncVal(1)]
            &&& b != seq![SpecOp::DecVal(1)]
        },
        _ => true,
    }
}

proof fn lemma_normalized_cons(x: SpecOp, t: Seq<SpecOp>)
    requires
        normalized_op(x),
        normalized(t),
        t.len() > 0 ==> !same_kind(x, t[0]),
    ensures
        normalized(seq![x] + t),
{
    let u = seq![x] + t;
    assert(u.subrange(1, u.len() as int) =~= t);
    assert(u[0] == x);
}

proof fn lemma_normalized_index(s: Seq<SpecOp>)
    requires
        normalized(s),
    ensures
        forall|j: int| 0 <= j < s.len() - 1 ==> !(#[trigger] same_kind(s[j], s[j + 1])),
        forall|j: int| 0 <= j < s.len() ==> #[trigger] normalized_op(s[j]),
    decreases s.len(),
{
    if s.len() > 0 {
        let t = s.subrange(1, s.len() as int);
        lemma_normalized_index(t);
        assert forall|j: int| 0 <= j < s.len() - 1 implies !(#[trigger] same_kind(s[j], s[j + 1])) by {
            if j > 0 {
                assert(s[j] == t[j - 1]);
                assert(s[j + 1] == t[j]);
            }
        }
        assert forall|j: int| 0 <= j < s.len() implies #[trigger] normalized_op(s[j]) by {
            if j > 0 {
                assert(s[j] == t[j - 1]);
            }
        }
    }
}

/// A merge of two same-kind operations keeps their kind.
proof fn lemma_merge2_kind(a: SpecOp, b: SpecOp)
    requires
        is_mergeable(a),
        same_kind(a, b),
    ensures
        is_mergeable(merge2(a, b)),
        same_kind(merge2(a, b), a),
{
}

/// A pending mergeable run surfaces as the first element of the result, with
/// its kind intact.
proof fn lemma_compact_head(s: Seq<SpecOp>, i: int, p: SpecOp)
    requires
        is_mergeable(p),
    ensures
        compact_from(s, i, Some(p)).len() >= 1,
        same_kind(compact_from(s, i, Some(p))[0], p),
    decreases s, s.len() - i,
{
    if i < 0 || i >= s.len() {
    } else {
        match s[i] {
            SpecOp::While(b) => {
            },
            SpecOp::Print => {
            },
            SpecOp::Read => {
            },
            SpecOp::SetRegisterToZero => {
            },
            _ => {
                if same_kind(p, s[i]) {
                    lemma_merge2_kind(p, s[i]);
                    lemma_compact_head(s, i + 1, merge2(p, s[i]));
                }
            },
        }
    }
}

/// The optimizer's output is in normal form.
pub proof fn lemma_compact_normalized(s: Seq<SpecOp>, i: int, pend: Option<SpecOp>)
    requires
        pend matches Some(p) ==> is_mergeable(p),
    ensures
        normalized(compact_from(s, i, pend)),
    decreases s, s.len() - i,
{
    if i < 0 || i >= s.len() {
        assert(normalized(Seq::<SpecOp>::empty()));
        match pend {
            None => {
            },
            Some(p) => {
                assert(normalized_op(p));
                assert(flush(pend)[0] == p);
                assert(flush(pend).subrange(1, 1) =~= Seq::<SpecOp>::empty());
            },
        }
    } else {
        match s[i] {
            SpecOp::While(b) => {
                lemma_compact_normalized(b, 0, None);
                lemma_compact_normalized(s, i + 1, None);
                let emit = loop_or_reset(compact_from(b, 0, None));
                let rest = compact_from(s, i + 1, None);
                lemma_normalized_cons(emit, rest);
                lemma_flush_cons(pend, emit, rest);
            },
            SpecOp::Print => {
                lemma_compact_normalized(s, i + 1, None);
                let rest = compact_from(s, i + 1, None);
                lemma_normalized_cons(SpecOp::Print, rest);
                lemma_flush_cons(pend, SpecOp::Print, rest);
            },
            SpecOp::Read => {
                lemma_compact_normalized(s, i + 1, None);
                let rest = compact_from(s, i + 1, None);
                lemma_normalized_cons(SpecOp::Read, rest);
                lemma_flush_cons(pend, SpecOp::Read, rest);
            },
            SpecOp::SetRegisterToZero => {
                lemma_compact_normalized(s, i + 1, None);
                let rest = compact_from(s, i + 1, None);
                lemma_normalized_cons(SpecOp::SetRegisterToZero, rest);
                lemma_flush_cons(pend, SpecOp::SetRegisterToZero, rest);
            },
            _ => {
                match pend {
                    None => {
                        lemma_compact_normalized(s, i + 1, Some(s[i]));
                    },
                    Some(p) => {
                        if same_kind(p, s[i]) {
                            lemma_merge2_kind(p, s[i]);
                            lemma_compact_normalized(s, i + 1, Some(merge2(p, s[i])));
                        } else {
                            lemma_compact_normalized(s, i + 1, Some(s[i]));
                            lemma_compact_head(s, i + 1, s[i]);
                            let rest = compact_from(s, i + 1, Some(s[i]));
                            lemma_normalized_cons(p, rest);
                        }
                    },
                }
            },
        }
    }
}

/// Flushing the run in front of an emitted element keeps the normal form:
/// the flushed operation is never of the same kind as what follows it.
proof fn lemma_flush_cons(pend: Option<SpecOp>, emit: SpecOp, rest: Seq<SpecOp>)
    requires
        pend matches Some(p) ==> is_mergeable(p),
        !is_mergeable(emit),
        normalized(seq![emit] + rest),
    ensures
        normalized(flush(pend) + seq![emit] + rest),
{
    match pend {
        None => {
            assert(flush(pend) + seq![emit] + rest =~= seq![emit] + rest);
        },
        Some(p) => {
            let u = seq![emit] + rest;
            lemma_normalized_cons(p, u);
            assert(flush(pend) + seq![emit] + rest =~= seq![p] + u);
        },
    }
}

/// On input already in normal form the scan changes nothing: the run is
/// flushed in front and the rest is returned as it stands.
proof fn lemma_compact_id_from(s: Seq<SpecOp>, i: int, pend: Option<SpecOp>)
    requires
        0 <= i <= s.len(),
        forall|j: int| i <= j < s.len() - 1 ==> !(#[trigger] same_kind(s[j], s[j + 1])),
        forall|j: int| i <= j < s.len() ==> #[trigger] normalized_op(s[j]),
        pend matches Some(p) ==> is_mergeable(p) && (i < s.len() ==> !same_kind(p, s[i])),
    ensures
        compact_from(s, i, pend) == flush(pend) + s.subrange(i, s.len() as int),
    decreases s, s.len() - i,
{
    let len = s.len() as int;
    if i >= len {
        assert(flush(pend) + s.subrange(i, len) =~= flush(pend));
    } else {
        match s[i] {
            SpecOp::While(b) => {
                assert(normalized_op(s[i]));
                lemma_normalized_index(b);
                lemma_compact_id_from(b, 0, None);
                assert(flush(None) + b.subrange(0, b.len() as int) =~= b);
                assert(loop_or_reset(compact_from(b, 0, None)) == s[i]);
                lemma_compact_id_from(s, i + 1, None);
                assert(flush(pend) + seq![s[i]] + (flush(None) + s.subrange(i + 1, len)) =~= flush(
                    pend,
                ) + s.subrange(i, len));
            },
            SpecOp::Print => {
                lemma_compact_id_from(s, i + 1, None);
                assert(flush(pend) + seq![s[i]] + (flush(None) + s.subrange(i + 1, len)) =~= flush(
                    pend,
                ) + s.subrange(i, len));
            },
            SpecOp::Read => {
                lemma_compact_id_from(s, i + 1, None);
                assert(flush(pend) + seq![s[i]] + (flush(None) + s.subrange(i + 1, len)) =~= flush(
                    pend,
                ) + s.subrange(i, len));
            },
            SpecOp::SetRegisterToZero => {
                lemma_compact_id_from(s, i + 1, None);
                assert(flush(pend) + seq![s[i]] + (flush(None) + s.subrange(i + 1, len)) =~= flush(
                    pend,
                ) + s.subrange(i, len));
            },
            _ => {
                match pend {
                    None => {
                        lemma_compact_id_from(s, i + 1, Some(s[i]));
                        assert(flush(Some(s[i])) + s.subrange(i + 1, len) =~= flush(None)
                            + s.subrange(i, len));
                    },
                    Some(p) => {
                        lemma_compact_id_from(s, i + 1, Some(s[i]));
                        assert(seq![p] + (flush(Some(s[i])) + s.subrange(i + 1, len)) =~= flush(
                            Some(p),
                        ) + s.subrange(i, len));
                    },
                }
            },
        }
    }
}

/// Idempotence: optimizing an already optimized sequence changes nothing.
pub proof fn lemma_optimize_idempotent(s: Seq<SpecOp>)
    ensures
        spec_compact(spec_compact(s)) == spec_compact(s),
{
    let t = spec_compact(s);
    lemma_compact_normalized(s, 0, None);
    lemma_normalized_index(t);
    lemma_compact_id_from(t, 0, None);
    assert(flush(None) + t.subrange(0, t.len() as int) =~= t);
}

} // verus!
