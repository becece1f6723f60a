//! The tape interpreter: direct evaluation of an operation sequence against
//! a bounded cell tape.
//!
//! Execution is bounded by an explicit fuel argument so that every function
//! provably terminates: one unit of fuel pays for one loop iteration. The
//! specification semantics `run_op` / `run_ops` carries the same fuel, and
//! succeeding with some fuel determines the result for every larger fuel.

use vstd::arithmetic::div_mod::{
    lemma_add_mod_noop, lemma_add_mod_noop_right, lemma_fundamental_div_mod_converse_mod,
    lemma_mod_add_multiples_vanish, lemma_small_mod, lemma_sub_mod_noop_right,
};
use vstd::prelude::*;
use vstd::slice::slice_to_vec;

use crate::brainfuck::{compact, get_ast, spec_compact, spec_parse, view_op, view_ops, Op, SpecOp};

verus! {

/// Number of byte cells on the tape.
pub const HEAP_SIZE: usize = 4092;

/// The interpreter state: a pointer into a fixed-size tape of byte cells,
/// the output accumulated so far, and the queue of read responses that the
/// `read` operation consumes one byte at a time.
pub struct State {
    pub curr_ptr: usize,
    pub data: Vec<u8>,
    pub output: Vec<u8>,
    pub input: Vec<u8>,
    pub input_pos: usize,
}

/// The mathematical interpreter state. `input` holds the read responses not
/// yet consumed.
#[verifier::ext_equal]
pub struct SpecState {
    pub ptr: int,
    pub cells: Seq<u8>,
    pub output: Seq<u8>,
    pub input: Seq<u8>,
}

impl SpecState {
    /// The tape has its fixed size and the pointer is on it.
    pub open spec fn wf(&self) -> bool {
        &&& self.cells.len() == HEAP_SIZE
        &&& 0 <= self.ptr < HEAP_SIZE
    }

    /// The byte under the pointer.
    pub open spec fn cell(&self) -> u8 {
        self.cells[self.ptr]
    }
}

impl State {
    /// The tape has its fixed size, the pointer is on it, and the read
    /// cursor is within the supplied responses.
    pub open spec fn wf(&self) -> bool {
        &&& self.data@.len() == HEAP_SIZE
        &&& self.curr_ptr < HEAP_SIZE
        &&& self.input_pos <= self.input@.len()
    }
}

impl View for State {
    type V = SpecState;

    open spec fn view(&self) -> SpecState {
        SpecState {
            ptr: self.curr_ptr as int,
            cells: self.data@,
            output: self.output@,
            input: self.input@.skip(self.input_pos as int),
        }
    }
}

/// What one fuel-free operation does to the state. Pointer moves wrap
/// circularly at the tape size; cell adjustments wrap modulo 256; `read`
/// consumes the next response byte, or stores 0 when none is left.
pub open spec fn step_op(st: SpecState, op: SpecOp) -> SpecState {
    match op {
        SpecOp::IncPointer(n) => SpecState { ptr: (st.ptr + n) % (HEAP_SIZE as int), ..st },
        SpecOp::DecPointer(n) => SpecState { ptr: (st.ptr - n) % (HEAP_SIZE as int), ..st },
        SpecOp::IncVal(n) => SpecState {
            cells: st.cells.update(st.ptr, ((st.cell() + n) % 256) as u8),
            ..st
        },
        SpecOp::DecVal(n) => SpecState {
            cells: st.cells.update(st.ptr, ((st.cell() - n) % 256) as u8),
            ..st
        },
        SpecOp::Print => SpecState { output: st.output.push(st.cell()), ..st },
        SpecOp::Read => {
            if st.input.len() > 0 {
                SpecState {
                    cells: st.cells.update(st.ptr, st.input[0]),
                    input: st.input.drop_first(),
                    ..st
                }
            } else {
                SpecState { cells: st.cells.update(st.ptr, 0u8), ..st }
            }
        },
        SpecOp::SetRegisterToZero => SpecState { cells: st.cells.update(st.ptr, 0u8), ..st },
        SpecOp::While(_) => st,
    }
}

/// Evaluates one operation. A loop re-checks its guard before every
/// iteration and spends one unit of fuel per iteration; `None` means the
/// fuel ran out before the loop finished.
pub open spec fn run_op(st: SpecState, op: SpecOp, fuel: nat) -> Option<SpecState>
    decreases fuel, op, 0int,
{
    match op {
        SpecOp::While(b) => {
            if st.cell() == 0 {
                Some(st)
            } else if fuel == 0 {
                None
            } else {
                proof {
                    assert(decreases_to!(op => b));
                }
                match run_ops_from(st, b, 0, (fuel - 1) as nat) {
                    None => None,
                    Some(st2) => run_op(st2, op, (fuel - 1) as nat),
                }
            }
        },
        _ => Some(step_op(st, op)),
    }
}

/// Evaluates a sequence of operations from position `i` on.
pub open spec fn run_ops_from(st: SpecState, ops: Seq<SpecOp>, i: int, fuel: nat) -> Option<
    SpecState,
>
    decreases fuel, ops, ops.len() - i,
{
    if i < 0 || i >= ops.len() {
        Some(st)
    } else {
        proof {
            assert(decreases_to!(ops => ops[i]));
        }
        match run_op(st, ops[i], fuel) {
            None => None,
            Some(st2) => run_ops_from(st2, ops, i + 1, fuel),
        }
    }
}

/// Evaluates a whole operation sequence.
pub open spec fn run_ops(st: SpecState, ops: Seq<SpecOp>, fuel: nat) -> Option<SpecState> {
    run_ops_from(st, ops, 0, fuel)
}

fn ptr_add(p: usize, n: usize) -> (r: usize)
    requires
        p < HEAP_SIZE,
    ensures
        r == (p + n) % (HEAP_SIZE as int),
        r < HEAP_SIZE,
{
    let m = n % HEAP_SIZE;
    let s = p + m;
    let r = if s >= HEAP_SIZE {
        s - HEAP_SIZE
    } else {
        s
    };
    proof {
        let h = HEAP_SIZE as int;
        lemma_add_mod_noop_right(p as int, n as int, h);
        if s >= HEAP_SIZE {
            lemma_fundamental_div_mod_converse_mod(p + m, h, 1, s - h);
        } else {
            lemma_small_mod((p + m) as nat, HEAP_SIZE as nat);
        }
    }
    r
}

fn ptr_sub(p: usize, n: usize) -> (r: usize)
    requires
        p < HEAP_SIZE,
    ensures
        r == (p - n) % (HEAP_SIZE as int),
        r < HEAP_SIZE,
{
    let m = n % HEAP_SIZE;
    let r = if m <= p {
        p - m
    } else {
        p + HEAP_SIZE - m
    };
    proof {
        let h = HEAP_SIZE as int;
        lemma_sub_mod_noop_right(p as int, n as int, h);
        if m <= p {
            lemma_small_mod((p - m) as nat, HEAP_SIZE as nat);
        } else {
            lemma_fundamental_div_mod_converse_mod(p - m, h, -1, p + h - m);
        }
    }
    r
}

fn cell_add(c: u8, n: u8) -> (r: u8)
    ensures
        r == ((c + n) % 256) as u8,
{
    let r = c.wrapping_add(n);
    proof {
        if c + n > 255 {
            lemma_fundamental_div_mod_converse_mod(c + n, 256, 1, c + n - 256);
        } else {
            lemma_small_mod((c + n) as nat, 256);
        }
    }
    r
}

fn cell_sub(c: u8, n: u8) -> (r: u8)
    ensures
        r == ((c - n) % 256) as u8,
{
    let r = c.wrapping_sub(n);
    proof {
        if c - n < 0 {
            lemma_fundamental_div_mod_converse_mod(c - n, 256, -1, c - n + 256);
        } else {
            lemma_small_mod((c - n) as nat, 256);
        }
    }
    r
}

/// Evaluates one operation against the state. Returns `false` when the fuel
/// ran out, in which case the state is left at whatever point evaluation
/// reached.
pub fn eval(state: &mut State, op: &Op, fuel: u64) -> (ok: bool)
    requires
        old(state).wf(),
    ensures
        final(state).wf(),
        ok ==> run_op(old(state)@, view_op(*op), fuel as nat) == Some(final(state)@),
        !ok ==> run_op(old(state)@, view_op(*op), fuel as nat) is None,
    decreases fuel, *op,
{
    match op {
        Op::IncPointer(n) => {
            state.curr_ptr = ptr_add(state.curr_ptr, *n);
            true
        },
        Op::DecPointer(n) => {
            state.curr_ptr = ptr_sub(state.curr_ptr, *n);
            true
        },
        Op::IncVal(n) => {
            let p = state.curr_ptr;
            let v = cell_add(state.data[p], *n);
            state.data[p] = v;
            true
        },
        Op::DecVal(n) => {
            let p = state.curr_ptr;
            let v = cell_sub(state.data[p], *n);
            state.data[p] = v;
            true
        },
        Op::Print => {
            let v = state.data[state.curr_ptr];
            state.output.push(v);
            true
        },
        Op::Read => {
            let p = state.curr_ptr;
            if state.input_pos < state.input.len() {
                let b = state.input[state.input_pos];
                state.input_pos = state.input_pos + 1;
                state.data[p] = b;
                proof {
                    assert(old(state)@.input.len() > 0);
                    assert(old(state)@.input[0] == b);
                    assert(state@.input =~= old(state)@.input.drop_first());
                    assert(state@ =~= step_op(old(state)@, SpecOp::Read));
                }
            } else {
                state.data[p] = 0;
                proof {
                    assert(old(state)@.input.len() == 0);
                    assert(state@ =~= step_op(old(state)@, SpecOp::Read));
                }
            }
            true
        },
        Op::SetRegisterToZero => {
            let p = state.curr_ptr;
            state.data[p] = 0;
            true
        },
        Op::While { ops } => {
            proof {
                assert(decreases_to!(*op => *ops));
                assert(decreases_to!(*ops => ops@));
            }
            eval_while(state, ops.as_slice(), fuel)
        },
    }
}

/// Evaluates a loop: re-checks the current cell before every iteration and
/// evaluates the body while it is nonzero. Returns `false` when the fuel ran
/// out first.
pub fn eval_while(state: &mut State, ops: &[Op], fuel: u64) -> (ok: bool)
    requires
        old(state).wf(),
    ensures
        final(state).wf(),
        ok ==> run_op(old(state)@, SpecOp::While(view_ops(ops@)), fuel as nat) == Some(
            final(state)@,
        ),
        !ok ==> run_op(old(state)@, SpecOp::While(view_ops(ops@)), fuel as nat) is None,
    decreases fuel, ops@,
{
    let ghost target = run_op(old(state)@, SpecOp::While(view_ops(ops@)), fuel as nat);
    let mut f = fuel;
    loop
        invariant
            state.wf(),
            f <= fuel,
            target == run_op(old(state)@, SpecOp::While(view_ops(ops@)), fuel as nat),
            run_op(state@, SpecOp::While(view_ops(ops@)), f as nat) == target,
        decreases f,
    {
        let cell = state.data[state.curr_ptr];
        if cell == 0 {
            return true;
        }
        if f == 0 {
            return false;
        }
        let ok = eval_vec(state, ops, f - 1);
        if !ok {
            return false;
        }
        f = f - 1;
    }
}

/// Evaluates the operations of a sequence in order. Returns `false` when the
/// fuel ran out inside some loop.
pub fn eval_vec(state: &mut State, ops: &[Op], fuel: u64) -> (ok: bool)
    requires
        old(state).wf(),
    ensures
        final(state).wf(),
        ok ==> run_ops(old(state)@, view_ops(ops@), fuel as nat) == Some(final(state)@),
        !ok ==> run_ops(old(state)@, view_ops(ops@), fuel as nat) is None,
    decreases fuel, ops@,
{
    let ghost target = run_ops(old(state)@, view_ops(ops@), fuel as nat);
    proof {
        crate::brainfuck::lemma_view_ops(ops@);
    }
    let mut i: usize = 0;
    while i < ops.len()
        invariant
            state.wf(),
            i <= ops@.len(),
            view_ops(ops@).len() == ops@.len(),
            forall|k: int| 0 <= k < ops@.len() ==> view_ops(ops@)[k] == view_op(ops@[k]),
            target == run_ops(old(state)@, view_ops(ops@), fuel as nat),
            run_ops_from(state@, view_ops(ops@), i as int, fuel as nat) == target,
        decreases ops@.len() - i,
    {
        proof {
            assert(decreases_to!(ops@ => ops@[i as int]));
        }
        let ok = eval(state, &ops[i], fuel);
        if !ok {
            return false;
        }
        i = i + 1;
    }
    true
}

/// Why a bounded run did not produce output: the source failed to parse, or
/// the fuel ran out before the program finished.
#[derive(Debug, Clone, Copy, PartialEq, Eq, Structural)]
pub enum RunError {
    UnbalancedBrackets,
    FuelExhausted,
}

/// The tape at program start: all cells zero, the pointer at the first
/// cell, no output yet, every read response still pending.
pub open spec fn initial_state(input: Seq<u8>) -> SpecState {
    SpecState {
        ptr: 0,
        cells: Seq::new(HEAP_SIZE as nat, |i: int| 0u8),
        output: Seq::empty(),
        input: input,
    }
}

/// The whole pipeline at specification level: parse, optimize, interpret;
/// the output bytes when all three finished within the fuel.
pub open spec fn spec_run_output(code: Seq<char>, input: Seq<u8>, fuel: nat) -> Option<Seq<u8>> {
    match spec_parse(code) {
        None => None,
        Some((ops, n)) => match run_ops(initial_state(input), spec_compact(ops), fuel) {
            None => None,
            Some(st) => Some(st.output),
        },
    }
}

/// Parses, optimizes and interprets a source text against a fresh tape,
/// reading from `input`, and returns the accumulated output bytes. Fails
/// with the unbalanced-brackets error exactly when the source has a `[`
/// without its `]`, and with fuel exhaustion exactly when some loop did not
/// finish within `fuel` iterations.
pub fn run_brainfuck(code: &[char], input: &[u8], fuel: u64) -> (r: Result<Vec<u8>, RunError>)
    ensures
        match r {
            Ok(out) => spec_run_output(code@, input@, fuel as nat) == Some(out@),
            Err(e) => {
                &&& spec_run_output(code@, input@, fuel as nat) is None
                &&& (e == RunError::UnbalancedBrackets <==> spec_parse(code@) is None)
                &&& (e == RunError::FuelExhausted <==> spec_parse(code@) is Some)
            },
        },
{
    let ast = match get_ast(code) {
        Ok(r) => r.0,
        Err(_) => {
            return Err(RunError::UnbalancedBrackets);
        },
    };
    let ast = compact(ast.as_slice());
    let mut state = State {
        curr_ptr: 0,
        data: vec![0u8; HEAP_SIZE],
        output: Vec::new(),
        input: slice_to_vec(input),
        input_pos: 0,
    };
    proof {
        assert(state@.cells =~= initial_state(input@).cells);
        assert(state@.input =~= input@);
        assert(state@ =~= initial_state(input@));
    }
    let ok = eval_vec(&mut state, ast.as_slice(), fuel);
    if ok {
        Ok(state.output)
    } else {
        Err(RunError::FuelExhausted)
    }
}

/// More fuel never changes a result that was reached: a run that finished
/// returns the same final state under any larger fuel.
pub proof fn lemma_run_op_fuel_mono(st: SpecState, op: SpecOp, f1: nat, f2: nat)
    requires
        f1 <= f2,
        run_op(st, op, f1) is Some,
    ensures
        run_op(st, op, f2) == run_op(st, op, f1),
    decreases f1, op, 0int,
{
    match op {
        SpecOp::While(b) => {
            if st.cell() != 0 {
                match run_ops_from(st, b, 0, (f1 - 1) as nat) {
                    Some(st2) => {
                        lemma_run_ops_fuel_mono(st, b, 0, (f1 - 1) as nat, (f2 - 1) as nat);
                        lemma_run_op_fuel_mono(st2, op, (f1 - 1) as nat, (f2 - 1) as nat);
                    },
                    None => {},
                }
            }
        },
        _ => {},
    }
}

/// More fuel never changes a result that was reached, for a sequence.
pub proof fn lemma_run_ops_fuel_mono(st: SpecState, ops: Seq<SpecOp>, i: int, f1: nat, f2: nat)
    requires
        f1 <= f2,
        run_ops_from(st, ops, i, f1) is Some,
    ensures
        run_ops_from(st, ops, i, f2) == run_ops_from(st, ops, i, f1),
    decreases f1, ops, ops.len() - i,
{
    if 0 <= i < ops.len() {
        match run_op(st, ops[i], f1) {
            Some(st2) => {
                lemma_run_op_fuel_mono(st, ops[i], f1, f2);
                lemma_run_ops_fuel_mono(st2, ops, i + 1, f1, f2);
            },
            None => {},
        }
    }
}

/// Parse, optimize and interpret is deterministic: on one source text and
/// one sequence of read responses, any two runs that finish produce the
/// same output, whatever fuel each was given.
pub proof fn lemma_pipeline_deterministic(code: Seq<char>, input: Seq<u8>, f1: nat, f2: nat)
    requires
        spec_run_output(code, input, f1) is Some,
        spec_run_output(code, input, f2) is Some,
    ensures
        spec_run_output(code, input, f1) == spec_run_output(code, input, f2),
{
    match spec_parse(code) {
        None => {},
        Some((ops, n)) => {
            let st = initial_state(input);
            let t = spec_compact(ops);
            if f1 <= f2 {
                lemma_run_ops_fuel_mono(st, t, 0, f1, f2);
            } else {
                lemma_run_ops_fuel_mono(st, t, 0, f2, f1);
            }
        },
    }
}

/// A loop whose body decrements the cell once per iteration finishes with
/// the cell at zero after exactly as many iterations as the cell held.
proof fn lemma_dec_loop(st: SpecState)
    requires
        st.wf(),
    ensures
        run_op(st, SpecOp::While(seq![SpecOp::DecVal(1)]), st.cell() as nat) == Some(
            (SpecState { cells: st.cells.update(st.ptr, 0u8), ..st }),
        ),
    decreases st.cell(),
{
    let w = SpecOp::While(seq![SpecOp::DecVal(1)]);
    let c = st.cell();
    if c == 0 {
        assert(st.cells.update(st.ptr, 0u8) =~= st.cells);
        assert((SpecState { cells: st.cells.update(st.ptr, 0u8), ..st }) =~= st);
    } else {
        let body = seq![SpecOp::DecVal(1)];
        let st1 = step_op(st, SpecOp::DecVal(1));
        lemma_small_mod((c - 1) as nat, 256);
        assert(st1.cell() == c - 1);
        assert(body[0] == SpecOp::DecVal(1));
        assert(run_op(st, body[0], (c - 1) as nat) == Some(st1));
        assert(run_ops_from(st, body, 0, (c - 1) as nat) == run_ops_from(
            st1,
            body,
            1,
            (c - 1) as nat,
        ));
        lemma_dec_loop(st1);
        assert(st1.cells.update(st1.ptr, 0u8) =~= st.cells.update(st.ptr, 0u8));
        assert((SpecState { cells: st1.cells.update(st1.ptr, 0u8), ..st1 }) =~= (SpecState {
            cells: st.cells.update(st.ptr, 0u8),
            ..st
        }));
    }
}

/// A loop whose body increments the cell once per iteration finishes with
/// the cell wrapped around to zero.
proof fn lemma_inc_loop(st: SpecState)
    requires
        st.wf(),
    ensures
        run_op(
            st,
            SpecOp::While(seq![SpecOp::IncVal(1)]),
            (if st.cell() == 0 {
                0
            } else {
                (256 - st.cell())
            }) as nat,
        ) == Some((SpecState { cells: st.cells.update(st.ptr, 0u8), ..st })),
    decreases (if st.cell() == 0 {
        0int
    } else {
        256 - st.cell()
    }),
{
    let w = SpecOp::While(seq![SpecOp::IncVal(1)]);
    let c = st.cell();
    if c == 0 {
        assert(st.cells.update(st.ptr, 0u8) =~= st.cells);
        assert((SpecState { cells: st.cells.update(st.ptr, 0u8), ..st }) =~= st);
    } else {
        let f = (256 - c) as nat;
        let body = seq![SpecOp::IncVal(1)];
        let st1 = step_op(st, SpecOp::IncVal(1));
        if c == 255 {
            lemma_fundamental_div_mod_converse_mod(c + 1, 256, 1, 0);
            assert(st1.cell() == 0);
        } else {
            lemma_small_mod((c + 1) as nat, 256);
            assert(st1.cell() == c + 1);
        }
        assert(body[0] == SpecOp::IncVal(1));
        assert(run_op(st, body[0], (f - 1) as nat) == Some(st1));
        assert(run_ops_from(st, body, 0, (f - 1) as nat) == run_ops_from(
            st1,
            body,
            1,
            (f - 1) as nat,
        ));
        lemma_inc_loop(st1);
        lemma_run_op_fuel_mono(
            st1,
            w,
            (if st1.cell() == 0 {
                0
            } else {
                (256 - st1.cell())
            }) as nat,
            (f - 1) as nat,
        );
        assert(st1.cells.update(st1.ptr, 0u8) =~= st.cells.update(st.ptr, 0u8));
        assert((SpecState { cells: st1.cells.update(st1.ptr, 0u8), ..st1 }) =~= (SpecState {
            cells: st.cells.update(st.ptr, 0u8),
            ..st
        }));
    }
}

/// The reset idiom is sound: on every reachable cell value, the loops
/// `[-]` and `[+]` finish in the same final state that the explicit
/// reset-to-zero operation produces.
pub proof fn lemma_reset_idiom(st: SpecState)
    requires
        st.wf(),
    ensures
        exists|f: nat|
            run_op(st, SpecOp::While(seq![SpecOp::DecVal(1)]), f) == Some(
                step_op(st, SpecOp::SetRegisterToZero),
            ),
        exists|f: nat|
            run_op(st, SpecOp::While(seq![SpecOp::IncVal(1)]), f) == Some(
                step_op(st, SpecOp::SetRegisterToZero),
            ),
{
    lemma_dec_loop(st);
    let fd = st.cell() as nat;
    assert(run_op(st, SpecOp::While(seq![SpecOp::DecVal(1)]), fd) == Some(
        step_op(st, SpecOp::SetRegisterToZero),
    ));
    lemma_inc_loop(st);
    let fi = (if st.cell() == 0 {
        0
    } else {
        (256 - st.cell())
    }) as nat;
    assert(run_op(st, SpecOp::While(seq![SpecOp::IncVal(1)]), fi) == Some(
        step_op(st, SpecOp::SetRegisterToZero),
    ));
}

proof fn lemma_inc_run(st: SpecState, s: Seq<SpecOp>, i: int, fuel: nat)
    requires
        st.wf(),
        0 <= i <= s.len(),
        s.len() <= 256,
        forall|k: int| 0 <= k < s.len() ==> s[k] == SpecOp::IncVal(1),
    ensures
        run_ops_from(st, s, i, fuel) == Some(
            (SpecState {
                cells: st.cells.update(st.ptr, ((st.cell() + (s.len() - i)) % 256) as u8),
                ..st
            }),
        ),
    decreases s.len() - i,
{
    let c = st.cell();
    if i == s.len() {
        lemma_small_mod(c as nat, 256);
        assert(st.cells.update(st.ptr, c) =~= st.cells);
        assert((SpecState { cells: st.cells.update(st.ptr, ((c + 0) % 256) as u8), ..st }) =~= st);
    } else {
        let st1 = step_op(st, SpecOp::IncVal(1));
        assert(s[i] == SpecOp::IncVal(1));
        assert(run_op(st, s[i], fuel) == Some(st1));
        lemma_inc_run(st1, s, i + 1, fuel);
        let k = s.len() - i - 1;
        lemma_add_mod_noop(c + 1, k as int, 256);
        lemma_small_mod(k as nat, 256);
        assert(st1.cell() == (c + 1) % 256);
        assert((st1.cell() + k) % 256 == (c + (s.len() - i)) % 256);
        assert(st1.cells.update(st1.ptr, ((st1.cell() + k) % 256) as u8) =~= st.cells.update(
            st.ptr,
            ((c + (s.len() - i)) % 256) as u8,
        ));
        assert((SpecState {
            cells: st1.cells.update(st1.ptr, ((st1.cell() + k) % 256) as u8),
            ..st1
        }) =~= (SpecState {
            cells: st.cells.update(st.ptr, ((c + (s.len() - i)) % 256) as u8),
            ..st
        }));
    }
}

/// Wraparound: 256 one-step cell increments return every cell to its
/// original value, and a pointer move of the whole tape size returns the
/// pointer to its place.
pub proof fn lemma_wraparound(st: SpecState, fuel: nat)
    requires
        st.wf(),
    ensures
        run_ops(st, Seq::new(256, |i: int| SpecOp::IncVal(1)), fuel) == Some(st),
        run_op(st, SpecOp::IncPointer(HEAP_SIZE), fuel) == Some(st),
{
    let s = Seq::new(256, |i: int| SpecOp::IncVal(1));
    lemma_inc_run(st, s, 0, fuel);
    lemma_mod_add_multiples_vanish(st.cell() as int, 256);
    lemma_small_mod(st.cell() as nat, 256);
    assert((st.cell() + 256) % 256 == st.cell());
    assert(st.cells.update(st.ptr, st.cell()) =~= st.cells);
    assert((SpecState {
        cells: st.cells.update(st.ptr, ((st.cell() + 256) % 256) as u8),
        ..st
    }) =~= st);
    lemma_mod_add_multiples_vanish(st.ptr, HEAP_SIZE as int);
    lemma_small_mod(st.ptr as nat, HEAP_SIZE as nat);
    assert((st.ptr + HEAP_SIZE) % (HEAP_SIZE as int) == st.ptr);
    assert(step_op(st, SpecOp::IncPointer(HEAP_SIZE)) =~= st);
}

} // verus!
