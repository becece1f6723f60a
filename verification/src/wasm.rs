//! Instruction lowering and the binary module emitter: translates an
//! optimized operation sequence into stack-machine instructions and
//! assembles a byte-exact WebAssembly binary module.

use vstd::prelude::*;

use crate::brainfuck::{view_op, view_ops, Op, SpecOp};
use crate::leb128::{leb128_bytes, leb128_decode_prefix, lemma_leb128_round_trip, write_leb128};

verus! {

/// Index of the imported host `print` function.
pub const EXTERNAL_CALL_PRINT: u8 = 0;

/// Index of the imported host `read` function.
pub const EXTERNAL_CALL_READ: u8 = 1;

pub const FUNC: u8 = 0x60;

pub const I32: u8 = 0x7f;

pub const GET_LOCAL: u8 = 0x20;

pub const SET_LOCAL: u8 = 0x21;

pub const TEE_LOCAL: u8 = 0x22;

pub const I32_ADD: u8 = 0x6a;

pub const I32_SUB: u8 = 0x6b;

pub const I32_CONST: u8 = 0x41;

pub const I32_STORE8: u8 = 0x3a;

pub const I32_LOAD8_U: u8 = 0x2d;

pub const I32_EQZ: u8 = 0x45;

pub const BLOCK: u8 = 0x02;

pub const LOOP: u8 = 0x03;

pub const BR: u8 = 0x0c;

pub const BRIF: u8 = 0x0d;

pub const VOID: u8 = 0x40;

pub const END: u8 = 0x0b;

pub const CALL: u8 = 0x10;

/// Appends one byte to the buffer.
///
/// Relies on byteorder's `WriteBytesExt::write_u8`, which writes the single
/// byte through `io::Write`; the `io::Write` impl for `Vec<u8>` appends and
/// never fails.
#[verifier::external_body]
fn write_u8(vec: &mut Vec<u8>, n: u8)
    ensures
        final(vec)@ == old(vec)@.push(n),
{
    byteorder::WriteBytesExt::write_u8(vec, n).unwrap();
}

/// The two bytes of `n`, least significant first.
pub open spec fn u16_le_bytes(n: u16) -> Seq<u8> {
    seq![(n % 256) as u8, (n / 256) as u8]
}

/// Appends the two little-endian bytes of `n` to the buffer.
///
/// Relies on byteorder's `WriteBytesExt::write_u16::<LittleEndian>`, which
/// writes `n.to_le_bytes()` through `io::Write`; the `io::Write` impl for
/// `Vec<u8>` appends and never fails.
#[verifier::external_body]
fn write_u16_le(vec: &mut Vec<u8>, n: u16)
    ensures
        final(vec)@ == old(vec)@ + u16_le_bytes(n),
{
    byteorder::WriteBytesExt::write_u16::<byteorder::LittleEndian>(vec, n).unwrap();
}

/// The four bytes of `n`, least significant first.
pub open spec fn u32_le_bytes(n: u32) -> Seq<u8> {
    seq![
        (n % 256) as u8,
        ((n / 256) % 256) as u8,
        ((n / 0x10000) % 256) as u8,
        ((n / 0x1000000) % 256) as u8,
    ]
}

/// Appends the four little-endian bytes of `n` to the buffer.
///
/// Relies on byteorder's `WriteBytesExt::write_u32::<LittleEndian>`, which
/// writes `n.to_le_bytes()` through `io::Write`; the `io::Write` impl for
/// `Vec<u8>` appends and never fails.
#[verifier::external_body]
fn write_u32_le(vec: &mut Vec<u8>, n: u32)
    ensures
        final(vec)@ == old(vec)@ + u32_le_bytes(n),
{
    byteorder::WriteBytesExt::write_u32::<byteorder::LittleEndian>(vec, n).unwrap();
}

/// One stack-machine instruction, carrying only the operand its opcode
/// needs: an 8-bit immediate, a local slot, or a branch depth.
#[derive(Clone, Copy, Debug, PartialEq, Eq, Structural)]
pub enum Wast {
    Call(u8),
    I32Const(u8),
    I32Store8,
    I32Load8u,
    I32Eqz,
    SetLocal(u8),
    GetLocal(u8),
    TeeLocal(u8),
    I32Add,
    I32Sub,
    Loop,
    Block,
    End,
    Br(u8),
    BrIf(u8),
}

/// The exact encoding of one instruction. The byte-store and byte-load
/// opcodes carry a two-byte alignment/offset immediate that is zero here;
/// `block` and `loop` carry the void block type.
pub open spec fn wast_bytes(w: Wast) -> Seq<u8> {
    match w {
        Wast::I32Store8 => seq![I32_STORE8, 0u8, 0u8],
        Wast::I32Load8u => seq![I32_LOAD8_U, 0u8, 0u8],
        Wast::I32Add => seq![I32_ADD],
        Wast::I32Sub => seq![I32_SUB],
        Wast::I32Eqz => seq![I32_EQZ],
        Wast::Block => seq![BLOCK, VOID],
        Wast::Loop => seq![LOOP, VOID],
        Wast::End => seq![END],
        Wast::I32Const(n) => seq![I32_CONST, n],
        Wast::SetLocal(n) => seq![SET_LOCAL, n],
        Wast::GetLocal(n) => seq![GET_LOCAL, n],
        Wast::TeeLocal(n) => seq![TEE_LOCAL, n],
        Wast::Call(n) => seq![CALL, n],
        Wast::Br(n) => seq![BR, n],
        Wast::BrIf(n) => seq![BRIF, n],
    }
}

/// The concatenated encoding of an instruction sequence.
pub open spec fn wasts_bytes(s: Seq<Wast>) -> Seq<u8>
    decreases s.len(),
{
    if s.len() == 0 {
        Seq::empty()
    } else {
        wast_bytes(s[0]) + wasts_bytes(s.subrange(1, s.len() as int))
    }
}

/// Appending one instruction appends its encoding.
pub proof fn lemma_wasts_bytes_push(s: Seq<Wast>, w: Wast)
    ensures
        wasts_bytes(s.push(w)) == wasts_bytes(s) + wast_bytes(w),
    decreases s.len(),
{
    let t = s.push(w);
    if s.len() == 0 {
        assert(t.subrange(1, t.len() as int) =~= Seq::<Wast>::empty());
        assert(wasts_bytes(Seq::<Wast>::empty()) =~= Seq::<u8>::empty());
        assert(t[0] == w);
        assert(wasts_bytes(s.push(w)) =~= wasts_bytes(s) + wast_bytes(w));
    } else {
        assert(t.subrange(1, t.len() as int) =~= s.subrange(1, s.len() as int).push(w));
        lemma_wasts_bytes_push(s.subrange(1, s.len() as int), w);
        assert(t[0] == s[0]);
        assert(wasts_bytes(s.push(w)) =~= wasts_bytes(s) + wast_bytes(w));
    }
}

impl Wast {
    /// Appends this instruction's encoding to the buffer.
    pub fn to_binary(&self, vec: &mut Vec<u8>)
        ensures
            final(vec)@ == old(vec)@ + wast_bytes(*self),
    {
        match *self {
            Wast::I32Store8 => {
                write_u8(vec, I32_STORE8);
                write_u16_le(vec, 0);  // alignment and offset, both zero
            },
            Wast::I32Load8u => {
                write_u8(vec, I32_LOAD8_U);
                write_u16_le(vec, 0);  // alignment and offset, both zero
            },
            Wast::I32Add => write_u8(vec, I32_ADD),
            Wast::I32Sub => write_u8(vec, I32_SUB),
            Wast::I32Eqz => write_u8(vec, I32_EQZ),
            Wast::Block => {
                write_u8(vec, BLOCK);
                write_u8(vec, VOID);
            },
            Wast::Loop => {
                write_u8(vec, LOOP);
                write_u8(vec, VOID);
            },
            Wast::End => write_u8(vec, END),
            Wast::I32Const(n) => {
                write_u8(vec, I32_CONST);
                write_u8(vec, n);
            },
            Wast::SetLocal(n) => {
                write_u8(vec, SET_LOCAL);
                write_u8(vec, n);
            },
            Wast::GetLocal(n) => {
                write_u8(vec, GET_LOCAL);
                write_u8(vec, n);
            },
            Wast::TeeLocal(n) => {
                write_u8(vec, TEE_LOCAL);
                write_u8(vec, n);
            },
            Wast::Call(n) => {
                write_u8(vec, CALL);
                write_u8(vec, n);
            },
            Wast::Br(n) => {
                write_u8(vec, BR);
                write_u8(vec, n);
            },
            Wast::BrIf(n) => {
                write_u8(vec, BRIF);
                write_u8(vec, n);
            },
        }
        proof {
            assert(vec@ =~= old(vec)@ + wast_bytes(*self));
        }
    }
}

/// One forward scan that merges a `set-local` immediately followed by a
/// `get-local` of the same slot into one `tee-local`. Exactly one merge per
/// adjacent pair: the scan continues after the merged pair, so longer chains
/// are only partially merged.
pub open spec fn spec_peephole(s: Seq<Wast>, i: int) -> Seq<Wast>
    decreases s.len() - i,
{
    if i < 0 || i >= s.len() {
        Seq::empty()
    } else if i + 1 < s.len() && (s[i] matches Wast::SetLocal(a) && s[i + 1] matches Wast::GetLocal(
        b,
    ) && a == b) {
        seq![Wast::TeeLocal(s[i]->SetLocal_0)] + spec_peephole(s, i + 2)
    } else {
        seq![s[i]] + spec_peephole(s, i + 1)
    }
}

/// The peephole merge over a lowered instruction list: each adjacent
/// `set-local(k)`, `get-local(k)` pair becomes one `tee-local(k)`.
pub fn simple_optimasation(code: &Vec<Wast>) -> (r: Vec<Wast>)
    ensures
        r@ == spec_peephole(code@, 0),
{
    let mut r: Vec<Wast> = Vec::new();
    let mut i: usize = 0;
    let len = code.len();
    while i < len
        invariant
            len == code@.len(),
            i <= len,
            spec_peephole(code@, 0) == r@ + spec_peephole(code@, i as int),
        decreases len - i,
    {
        let op = if i + 1 < len {
            match (&code[i], &code[i + 1]) {
                (Wast::SetLocal(a), Wast::GetLocal(b)) if *a == *b => {
                    i = i + 1;
                    Wast::TeeLocal(*a)
                },
                _ => code[i],
            }
        } else {
            code[i]
        };
        r.push(op);
        i = i + 1;
        proof {
            assert(spec_peephole(code@, 0) =~= r@ + spec_peephole(code@, i as int));
        }
    }
    proof {
        assert(spec_peephole(code@, 0) =~= r@);
    }
    r
}

/// The fixed, context-free instruction sequence one operation lowers to.
/// Local slot 0 is the pointer register; constants larger than one byte are
/// truncated to their low 8 bits, as the one-byte immediate requires.
pub open spec fn lower_op(op: SpecOp) -> Seq<Wast>
    decreases op, 0int,
{
    match op {
        SpecOp::IncPointer(n) => seq![
            Wast::GetLocal(0),
            Wast::I32Const((n % 256) as u8),
            Wast::I32Add,
            Wast::SetLocal(0),
        ],
        SpecOp::DecPointer(n) => seq![
            Wast::GetLocal(0),
            Wast::I32Const((n % 256) as u8),
            Wast::I32Sub,
            Wast::SetLocal(0),
        ],
        SpecOp::IncVal(n) => seq![
            Wast::GetLocal(0),
            Wast::GetLocal(0),
            Wast::I32Load8u,
            Wast::I32Const(n),
            Wast::I32Add,
            Wast::I32Store8,
        ],
        SpecOp::DecVal(n) => seq![
            Wast::GetLocal(0),
            Wast::GetLocal(0),
            Wast::I32Load8u,
            Wast::I32Const(n),
            Wast::I32Sub,
            Wast::I32Store8,
        ],
        SpecOp::SetRegisterToZero => seq![Wast::GetLocal(0), Wast::I32Const(0), Wast::I32Store8],
        SpecOp::Print => seq![
            Wast::GetLocal(0),
            Wast::I32Load8u,
            Wast::Call(EXTERNAL_CALL_PRINT),
        ],
        SpecOp::Read => seq![Wast::GetLocal(0), Wast::Call(EXTERNAL_CALL_READ), Wast::I32Store8],
        SpecOp::While(b) => {
            proof {
                assert(decreases_to!(op => b));
            }
            seq![
                Wast::Block,
                Wast::Loop,
                Wast::GetLocal(0),
                Wast::I32Load8u,
                Wast::I32Eqz,
                Wast::BrIf(1),
            ] + lower_ops_from(b, 0) + seq![Wast::Br(0), Wast::End, Wast::End]
        },
    }
}

/// The concatenated lowering of an operation sequence from position `i` on.
pub open spec fn lower_ops_from(s: Seq<SpecOp>, i: int) -> Seq<Wast>
    decreases s, s.len() - i,
{
    if i < 0 || i >= s.len() {
        Seq::empty()
    } else {
        proof {
            assert(decreases_to!(s => s[i]));
        }
        lower_op(s[i]) + lower_ops_from(s, i + 1)
    }
}

/// The lowering of a whole operation sequence.
pub open spec fn lower_ops(s: Seq<SpecOp>) -> Seq<Wast> {
    lower_ops_from(s, 0)
}

/// Appends the lowering of one operation to `res`. A loop lowers to the
/// structured break/continue idiom: a loop construct nested in a block gives
/// branch depth 1 to leave the block and depth 0 to repeat, with the guard
/// test run before every iteration.
#[verifier::loop_isolation(false)]
pub fn to_wasmt(ops: &Op, res: &mut Vec<Wast>)
    ensures
        final(res)@ == old(res)@ + lower_op(view_op(*ops)),
    decreases *ops,
{
    match ops {
        Op::IncPointer(n) => {
            res.push(Wast::GetLocal(0));
            res.push(Wast::I32Const((*n % 256) as u8));
            res.push(Wast::I32Add);
            res.push(Wast::SetLocal(0));
            proof {
                assert(res@ =~= old(res)@ + lower_op(view_op(*ops)));
            }
        },
        Op::DecPointer(n) => {
            res.push(Wast::GetLocal(0));
            res.push(Wast::I32Const((*n % 256) as u8));
            res.push(Wast::I32Sub);
            res.push(Wast::SetLocal(0));
            proof {
                assert(res@ =~= old(res)@ + lower_op(view_op(*ops)));
            }
        },
        Op::IncVal(n) => {
            res.push(Wast::GetLocal(0));
            res.push(Wast::GetLocal(0));
            res.push(Wast::I32Load8u);
            res.push(Wast::I32Const(*n));
            res.push(Wast::I32Add);
            res.push(Wast::I32Store8);
            proof {
                assert(res@ =~= old(res)@ + lower_op(view_op(*ops)));
            }
        },
        Op::DecVal(n) => {
            res.push(Wast::GetLocal(0));
            res.push(Wast::GetLocal(0));
            res.push(Wast::I32Load8u);
            res.push(Wast::I32Const(*n));
            res.push(Wast::I32Sub);
            res.push(Wast::I32Store8);
            proof {
                assert(res@ =~= old(res)@ + lower_op(view_op(*ops)));
            }
        },
        Op::SetRegisterToZero => {
            res.push(Wast::GetLocal(0));
            res.push(Wast::I32Const(0));
            res.push(Wast::I32Store8);
            proof {
                assert(res@ =~= old(res)@ + lower_op(view_op(*ops)));
            }
        },
        Op::Print => {
            res.push(Wast::GetLocal(0));
            res.push(Wast::I32Load8u);
            res.push(Wast::Call(EXTERNAL_CALL_PRINT));
            proof {
                assert(res@ =~= old(res)@ + lower_op(view_op(*ops)));
            }
        },
        Op::Read => {
            res.push(Wast::GetLocal(0));
            res.push(Wast::Call(EXTERNAL_CALL_READ));
            res.push(Wast::I32Store8);
            proof {
                assert(res@ =~= old(res)@ + lower_op(view_op(*ops)));
            }
        },
        Op::While { ops: body } => {
            let ghost bv = view_ops(body@);
            proof {
                crate::brainfuck::lemma_view_ops(body@);
            }
            res.push(Wast::Block);
            res.push(Wast::Loop);
            res.push(Wast::GetLocal(0));
            res.push(Wast::I32Load8u);
            res.push(Wast::I32Eqz);
            res.push(Wast::BrIf(1));
            let ghost mid = res@;
            let mut i: usize = 0;
            while i < body.len()
                invariant
                    i <= body@.len(),
                    bv == view_ops(body@),
                    bv.len() == body@.len(),
                    forall|k: int| 0 <= k < body@.len() ==> bv[k] == view_op(body@[k]),
                    res@ + lower_ops_from(bv, i as int) == mid + lower_ops_from(bv, 0),
                decreases body@.len() - i,
            {
                proof {
                    assert(decreases_to!(*ops => *body));
                    assert(decreases_to!(*body => body@));
                    assert(decreases_to!(body@ => body@[i as int]));
                }
                to_wasmt(&body[i], res);
                proof {
                    assert(res@ + lower_ops_from(bv, i as int + 1) =~= mid + lower_ops_from(
                        bv,
                        0,
                    ));
                }
                i = i + 1;
            }
            res.push(Wast::Br(0));
            res.push(Wast::End);
            res.push(Wast::End);
            proof {
                assert(res@ =~= old(res)@ + lower_op(view_op(*ops)));
            }
        },
    }
}

/// Section identifiers of the binary format.
pub const TYPES_SECTION: u8 = 1;

pub const IMPORTS_SECTION: u8 = 2;

pub const FUNCTIONS_SECTION: u8 = 3;

pub const MEMORY_SECTION: u8 = 5;

pub const EXPORTS_SECTION: u8 = 7;

pub const CODE_SECTION: u8 = 10;

/// The 4-byte magic value `\0asm`, little-endian.
pub const WASM_MAGIC: u32 = 0x6d73_6100;

pub const WASM_VERSION: u32 = 1;

/// Linear memory is declared in 64 KiB pages: one page covers the tape.
pub const MEMORY_PAGES: usize = 1;

/// A function signature: how many i32 parameters, and whether there is one
/// i32 result.
#[derive(Clone, Copy, Debug, PartialEq, Eq, Structural)]
pub struct TypeDef {
    pub params: u8,
    pub result: bool,
}

/// The encoding of a function type: the function-type tag, the parameter
/// count and that many i32 value types, then the result count and type.
pub open spec fn typedef_bytes(td: TypeDef) -> Seq<u8> {
    seq![FUNC] + leb128_bytes(td.params as nat) + Seq::new(td.params as nat, |i: int| I32) + (
    if td.result {
        leb128_bytes(1) + seq![I32]
    } else {
        leb128_bytes(0)
    })
}

impl TypeDef {
    /// Appends this signature's encoding to the buffer.
    #[verifier::loop_isolation(false)]
    pub fn to_binary(&self, vec: &mut Vec<u8>)
        ensures
            final(vec)@ == old(vec)@ + typedef_bytes(*self),
    {
        write_u8(vec, FUNC);
        write_leb128(vec, self.params as usize);
        let mut i: u8 = 0;
        while i < self.params
            invariant
                i <= self.params,
                vec@ == old(vec)@ + seq![FUNC] + leb128_bytes(self.params as nat) + Seq::new(
                    i as nat,
                    |k: int| I32,
                ),
            decreases self.params - i,
        {
            write_u8(vec, I32);
            i = i + 1;
            proof {
                assert(vec@ =~= old(vec)@ + seq![FUNC] + leb128_bytes(self.params as nat)
                    + Seq::new(i as nat, |k: int| I32));
            }
        }
        if self.result {
            write_leb128(vec, 1);
            write_u8(vec, I32);
        } else {
            write_leb128(vec, 0);
        }
        proof {
            assert(vec@ =~= old(vec)@ + typedef_bytes(*self));
        }
    }
}

/// An import as the contracts see it: module name bytes, field name bytes,
/// and the signature.
#[verifier::ext_equal]
pub struct SpecImport {
    pub module: Seq<u8>,
    pub field: Seq<u8>,
    pub td: TypeDef,
}

/// A defined function as the contracts see it: export name bytes, signature,
/// number of i32 locals, and the instruction list.
#[verifier::ext_equal]
pub struct SpecFunc {
    pub name: Seq<u8>,
    pub td: TypeDef,
    pub local_vars: u8,
    pub code: Seq<Wast>,
}

/// The binary artifact: host imports and locally defined functions. Names
/// are length-prefixed UTF-8 byte sequences.
pub struct Module {
    pub imports: Vec<(Vec<u8>, Vec<u8>, TypeDef)>,
    pub functions: Vec<(Vec<u8>, TypeDef, u8, Vec<Wast>)>,
}

/// The abstract form of the import list.
pub open spec fn imports_view(s: Seq<(Vec<u8>, Vec<u8>, TypeDef)>) -> Seq<SpecImport> {
    Seq::new(s.len(), |i: int| SpecImport { module: s[i].0@, field: s[i].1@, td: s[i].2 })
}

/// The abstract form of the function list.
pub open spec fn funcs_view(s: Seq<(Vec<u8>, TypeDef, u8, Vec<Wast>)>) -> Seq<SpecFunc> {
    Seq::new(
        s.len(),
        |i: int| SpecFunc { name: s[i].0@, td: s[i].1, local_vars: s[i].2, code: s[i].3@ },
    )
}

/// A length-prefixed name.
pub open spec fn name_bytes(name: Seq<u8>) -> Seq<u8> {
    leb128_bytes(name.len()) + name
}

/// A section: its one-byte identifier, the LEB128-encoded byte length of the
/// payload, then the payload.
pub open spec fn section_bytes(id: u8, payload: Seq<u8>) -> Seq<u8> {
    seq![id] + leb128_bytes(payload.len()) + payload
}

pub open spec fn import_tds_bytes(s: Seq<SpecImport>, i: int) -> Seq<u8>
    decreases s.len() - i,
{
    if i < 0 || i >= s.len() {
        Seq::empty()
    } else {
        typedef_bytes(s[i].td) + import_tds_bytes(s, i + 1)
    }
}

pub open spec fn func_tds_bytes(s: Seq<SpecFunc>, i: int) -> Seq<u8>
    decreases s.len() - i,
{
    if i < 0 || i >= s.len() {
        Seq::empty()
    } else {
        typedef_bytes(s[i].td) + func_tds_bytes(s, i + 1)
    }
}

/// The type section: one function-type entry per import, then one per
/// defined function. Absent when there are none.
pub open spec fn types_section_bytes(imports: Seq<SpecImport>, functions: Seq<SpecFunc>) -> Seq<
    u8,
> {
    if imports.len() + functions.len() == 0 {
        Seq::empty()
    } else {
        section_bytes(
            TYPES_SECTION,
            leb128_bytes(imports.len() + functions.len()) + import_tds_bytes(imports, 0)
                + func_tds_bytes(functions, 0),
        )
    }
}

pub open spec fn import_entries_bytes(s: Seq<SpecImport>, i: int) -> Seq<u8>
    decreases s.len() - i,
{
    if i < 0 || i >= s.len() {
        Seq::empty()
    } else {
        name_bytes(s[i].module) + name_bytes(s[i].field) + seq![0u8] + leb128_bytes(i as nat)
            + import_entries_bytes(s, i + 1)
    }
}

/// The import section: for each host function its module name, field name,
/// the function import kind, and its signature index.
pub open spec fn import_section_bytes(imports: Seq<SpecImport>) -> Seq<u8> {
    if imports.len() == 0 {
        Seq::empty()
    } else {
        section_bytes(
            IMPORTS_SECTION,
            leb128_bytes(imports.len()) + import_entries_bytes(imports, 0),
        )
    }
}

pub open spec fn func_index_bytes(count: int, base: nat, i: int) -> Seq<u8>
    decreases count - i,
{
    if i < 0 || i >= count {
        Seq::empty()
    } else {
        leb128_bytes(base + i as nat) + func_index_bytes(count, base, i + 1)
    }
}

/// The function section: for each defined function its type index, offset
/// past the import signatures.
pub open spec fn functions_section_bytes(n_imports: nat, functions: Seq<SpecFunc>) -> Seq<u8> {
    if functions.len() == 0 {
        Seq::empty()
    } else {
        section_bytes(
            FUNCTIONS_SECTION,
            leb128_bytes(functions.len()) + func_index_bytes(
                functions.len() as int,
                n_imports,
                0,
            ),
        )
    }
}

/// The memory section: one linear memory with zero limit flags and the
/// initial size in pages.
pub open spec fn memory_section_bytes() -> Seq<u8> {
    section_bytes(
        MEMORY_SECTION,
        leb128_bytes(1) + seq![0u8] + leb128_bytes(MEMORY_PAGES as nat),
    )
}

pub open spec fn export_entries_bytes(s: Seq<SpecFunc>, base: nat, i: int) -> Seq<u8>
    decreases s.len() - i,
{
    if i < 0 || i >= s.len() {
        Seq::empty()
    } else {
        name_bytes(s[i].name) + seq![0u8] + leb128_bytes(base + i as nat) + export_entries_bytes(
            s,
            base,
            i + 1,
        )
    }
}

/// The export section: each defined function exported by name, referencing
/// its function index, offset past the imports.
pub open spec fn exports_section_bytes(n_imports: nat, functions: Seq<SpecFunc>) -> Seq<u8> {
    if functions.len() == 0 {
        Seq::empty()
    } else {
        section_bytes(
            EXPORTS_SECTION,
            leb128_bytes(functions.len()) + export_entries_bytes(functions, n_imports, 0),
        )
    }
}

pub open spec fn local_decl_bytes(n: nat) -> Seq<u8>
    decreases n,
{
    if n == 0 {
        Seq::empty()
    } else {
        leb128_bytes(1) + seq![I32] + local_decl_bytes((n - 1) as nat)
    }
}

/// One function's code entry: the declared local groups, the instruction
/// bytes and the end marker, all prefixed with their byte length.
pub open spec fn func_code_bytes(f: SpecFunc) -> Seq<u8> {
    let body = leb128_bytes(f.local_vars as nat) + local_decl_bytes(f.local_vars as nat)
        + wasts_bytes(f.code) + seq![END];
    leb128_bytes(body.len()) + body
}

pub open spec fn code_entries_bytes(s: Seq<SpecFunc>, i: int) -> Seq<u8>
    decreases s.len() - i,
{
    if i < 0 || i >= s.len() {
        Seq::empty()
    } else {
        func_code_bytes(s[i]) + code_entries_bytes(s, i + 1)
    }
}

/// The code section: one entry per defined function.
pub open spec fn code_section_bytes(functions: Seq<SpecFunc>) -> Seq<u8> {
    if functions.len() == 0 {
        Seq::empty()
    } else {
        section_bytes(
            CODE_SECTION,
            leb128_bytes(functions.len()) + code_entries_bytes(functions, 0),
        )
    }
}

/// The complete module: the fixed header, then the type, import, function,
/// memory, export and code sections in that order.
pub open spec fn module_bytes(imports: Seq<SpecImport>, functions: Seq<SpecFunc>) -> Seq<u8> {
    u32_le_bytes(WASM_MAGIC) + u32_le_bytes(WASM_VERSION) + types_section_bytes(
        imports,
        functions,
    ) + import_section_bytes(imports) + functions_section_bytes(imports.len(), functions)
        + memory_section_bytes() + exports_section_bytes(imports.len(), functions)
        + code_section_bytes(functions)
}

/// After each section header, the length field decodes back to exactly the
/// byte length of the payload that follows it, whatever comes after the
/// section.
pub proof fn lemma_section_length(id: u8, payload: Seq<u8>, tail: Seq<u8>)
    ensures
        (section_bytes(id, payload) + tail)[0] == id,
        leb128_decode_prefix((section_bytes(id, payload) + tail).skip(1)) == Some(
            (payload.len(), leb128_bytes(payload.len()).len() as int),
        ),
        (section_bytes(id, payload) + tail).skip(
            1 + leb128_bytes(payload.len()).len() as int,
        ).take(payload.len() as int) == payload,
{
    let s = section_bytes(id, payload) + tail;
    let lb = leb128_bytes(payload.len());
    assert(s.skip(1) =~= lb + (payload + tail));
    lemma_leb128_round_trip(payload.len(), payload + tail);
    assert(s.skip(1 + lb.len() as int).take(payload.len() as int) =~= payload);
}

/// Appends all bytes of `bytes` to `vec`.
fn push_bytes(vec: &mut Vec<u8>, bytes: &[u8])
    ensures
        final(vec)@ == old(vec)@ + bytes@,
{
    let mut i: usize = 0;
    while i < bytes.len()
        invariant
            i <= bytes@.len(),
            vec@ == old(vec)@ + bytes@.subrange(0, i as int),
        decreases bytes@.len() - i,
    {
        vec.push(bytes[i]);
        i = i + 1;
        proof {
            assert(old(vec)@ + bytes@.subrange(0, i as int) =~= (old(vec)@ + bytes@.subrange(
                0,
                i as int - 1,
            )).push(bytes@[i as int - 1]));
        }
    }
    proof {
        assert(bytes@.subrange(0, bytes@.len() as int) =~= bytes@);
    }
}

/// Appends a length-prefixed name.
fn append_wasm_string(s: &Vec<u8>, vec: &mut Vec<u8>)
    ensures
        final(vec)@ == old(vec)@ + name_bytes(s@),
{
    write_leb128(vec, s.len());
    push_bytes(vec, s.as_slice());
    proof {
        assert(vec@ =~= old(vec)@ + name_bytes(s@));
    }
}

#[verifier::loop_isolation(false)]
fn types_section(module: &Module, vec: &mut Vec<u8>)
    requires
        module.imports@.len() + module.functions@.len() <= usize::MAX,
    ensures
        final(vec)@ == old(vec)@ + types_section_bytes(
            imports_view(module.imports@),
            funcs_view(module.functions@),
        ),
{
    let ghost iv = imports_view(module.imports@);
    let ghost fv = funcs_view(module.functions@);
    let elements = module.imports.len() + module.functions.len();
    if elements > 0 {
        let mut td_vec: Vec<u8> = Vec::new();
        write_leb128(&mut td_vec, elements);
        let mut i: usize = 0;
        while i < module.imports.len()
            invariant
                i <= module.imports@.len(),
                td_vec@ + import_tds_bytes(iv, i as int) == leb128_bytes(elements as nat)
                    + import_tds_bytes(iv, 0),
            decreases module.imports@.len() - i,
        {
            let entry = &module.imports[i];
            entry.2.to_binary(&mut td_vec);
            i = i + 1;
            proof {
                assert(td_vec@ + import_tds_bytes(iv, i as int) =~= leb128_bytes(elements as nat)
                    + import_tds_bytes(iv, 0));
            }
        }
        let ghost mid = leb128_bytes(elements as nat) + import_tds_bytes(iv, 0);
        proof {
            assert(td_vec@ =~= mid);
        }
        let mut j: usize = 0;
        while j < module.functions.len()
            invariant
                j <= module.functions@.len(),
                td_vec@ + func_tds_bytes(fv, j as int) == mid + func_tds_bytes(fv, 0),
            decreases module.functions@.len() - j,
        {
            let entry = &module.functions[j];
            entry.1.to_binary(&mut td_vec);
            j = j + 1;
            proof {
                assert(td_vec@ + func_tds_bytes(fv, j as int) =~= mid + func_tds_bytes(fv, 0));
            }
        }
        write_u8(vec, TYPES_SECTION);
        write_leb128(vec, td_vec.len());
        vec.append(&mut td_vec);
        proof {
            assert(vec@ =~= old(vec)@ + types_section_bytes(iv, fv));
        }
    } else {
        proof {
            assert(vec@ =~= old(vec)@ + types_section_bytes(iv, fv));
        }
    }
}

#[verifier::loop_isolation(false)]
fn import_section(imports: &Vec<(Vec<u8>, Vec<u8>, TypeDef)>, vec: &mut Vec<u8>)
    ensures
        final(vec)@ == old(vec)@ + import_section_bytes(imports_view(imports@)),
{
    let ghost iv = imports_view(imports@);
    let elements = imports.len();
    if elements > 0 {
        let mut ims_vec: Vec<u8> = Vec::new();
        write_leb128(&mut ims_vec, elements);
        let mut i: usize = 0;
        while i < imports.len()
            invariant
                i <= imports@.len(),
                ims_vec@ + import_entries_bytes(iv, i as int) == leb128_bytes(elements as nat)
                    + import_entries_bytes(iv, 0),
            decreases imports@.len() - i,
        {
            let entry = &imports[i];
            append_wasm_string(&entry.0, &mut ims_vec);
            append_wasm_string(&entry.1, &mut ims_vec);
            write_u8(&mut ims_vec, 0);  // import kind: function
            write_leb128(&mut ims_vec, i);  // signature index
            i = i + 1;
            proof {
                assert(ims_vec@ + import_entries_bytes(iv, i as int) =~= leb128_bytes(
                    elements as nat,
                ) + import_entries_bytes(iv, 0));
            }
        }
        write_u8(vec, IMPORTS_SECTION);
        write_leb128(vec, ims_vec.len());
        vec.append(&mut ims_vec);
        proof {
            assert(vec@ =~= old(vec)@ + import_section_bytes(iv));
        }
    } else {
        proof {
            assert(vec@ =~= old(vec)@ + import_section_bytes(iv));
        }
    }
}

#[verifier::loop_isolation(false)]
fn functions_section(
    functions: &Vec<(Vec<u8>, TypeDef, u8, Vec<Wast>)>,
    imports_no: usize,
    vec: &mut Vec<u8>,
)
    requires
        imports_no + functions@.len() <= usize::MAX,
    ensures
        final(vec)@ == old(vec)@ + functions_section_bytes(
            imports_no as nat,
            funcs_view(functions@),
        ),
{
    let ghost fv = funcs_view(functions@);
    let elements = functions.len();
    if elements > 0 {
        let mut fns_vec: Vec<u8> = Vec::new();
        write_leb128(&mut fns_vec, elements);
        let mut i: usize = 0;
        while i < functions.len()
            invariant
                i <= functions@.len(),
                fns_vec@ + func_index_bytes(fv.len() as int, imports_no as nat, i as int)
                    == leb128_bytes(elements as nat) + func_index_bytes(
                    fv.len() as int,
                    imports_no as nat,
                    0,
                ),
            decreases functions@.len() - i,
        {
            write_leb128(&mut fns_vec, imports_no + i);  // type index
            i = i + 1;
            proof {
                assert(fns_vec@ + func_index_bytes(fv.len() as int, imports_no as nat, i as int)
                    =~= leb128_bytes(elements as nat) + func_index_bytes(
                    fv.len() as int,
                    imports_no as nat,
                    0,
                ));
            }
        }
        write_u8(vec, FUNCTIONS_SECTION);
        write_leb128(vec, fns_vec.len());
        vec.append(&mut fns_vec);
        proof {
            assert(vec@ =~= old(vec)@ + functions_section_bytes(imports_no as nat, fv));
        }
    } else {
        proof {
            assert(vec@ =~= old(vec)@ + functions_section_bytes(imports_no as nat, fv));
        }
    }
}

fn memory_section(vec: &mut Vec<u8>)
    ensures
        final(vec)@ == old(vec)@ + memory_section_bytes(),
{
    let mut mem_vec: Vec<u8> = Vec::new();
    write_leb128(&mut mem_vec, 1);  // one memory
    write_u8(&mut mem_vec, 0);  // limit flags: no maximum
    write_leb128(&mut mem_vec, MEMORY_PAGES);
    write_u8(vec, MEMORY_SECTION);
    write_leb128(vec, mem_vec.len());
    vec.append(&mut mem_vec);
    proof {
        assert(vec@ =~= old(vec)@ + memory_section_bytes());
    }
}

#[verifier::loop_isolation(false)]
fn exports_section(
    functions: &Vec<(Vec<u8>, TypeDef, u8, Vec<Wast>)>,
    no_imports: usize,
    vec: &mut Vec<u8>,
)
    requires
        no_imports + functions@.len() <= usize::MAX,
    ensures
        final(vec)@ == old(vec)@ + exports_section_bytes(
            no_imports as nat,
            funcs_view(functions@),
        ),
{
    let ghost fv = funcs_view(functions@);
    let elements = functions.len();
    if elements > 0 {
        let mut fns_vec: Vec<u8> = Vec::new();
        write_leb128(&mut fns_vec, elements);
        let mut i: usize = 0;
        while i < functions.len()
            invariant
                i <= functions@.len(),
                fns_vec@ + export_entries_bytes(fv, no_imports as nat, i as int) == leb128_bytes(
                    elements as nat,
                ) + export_entries_bytes(fv, no_imports as nat, 0),
            decreases functions@.len() - i,
        {
            let entry = &functions[i];
            append_wasm_string(&entry.0, &mut fns_vec);
            write_u8(&mut fns_vec, 0);  // export kind: function
            write_leb128(&mut fns_vec, no_imports + i);  // function index
            i = i + 1;
            proof {
                assert(fns_vec@ + export_entries_bytes(fv, no_imports as nat, i as int)
                    =~= leb128_bytes(elements as nat) + export_entries_bytes(
                    fv,
                    no_imports as nat,
                    0,
                ));
            }
        }
        write_u8(vec, EXPORTS_SECTION);
        write_leb128(vec, fns_vec.len());
        vec.append(&mut fns_vec);
        proof {
            assert(vec@ =~= old(vec)@ + exports_section_bytes(no_imports as nat, fv));
        }
    } else {
        proof {
            assert(vec@ =~= old(vec)@ + exports_section_bytes(no_imports as nat, fv));
        }
    }
}

#[verifier::loop_isolation(false)]
fn code_section(functions: &Vec<(Vec<u8>, TypeDef, u8, Vec<Wast>)>, vec: &mut Vec<u8>)
    ensures
        final(vec)@ == old(vec)@ + code_section_bytes(funcs_view(functions@)),
{
    let ghost fv = funcs_view(functions@);
    let elements = functions.len();
    if elements > 0 {
        let mut fns_vec: Vec<u8> = Vec::new();
        write_leb128(&mut fns_vec, elements);
        let mut i: usize = 0;
        while i < functions.len()
            invariant
                i <= functions@.len(),
                fns_vec@ + code_entries_bytes(fv, i as int) == leb128_bytes(elements as nat)
                    + code_entries_bytes(fv, 0),
            decreases functions@.len() - i,
        {
            let entry = &functions[i];
            let local_vars = entry.2;
            let mut code: Vec<u8> = Vec::new();
            write_leb128(&mut code, local_vars as usize);
            let mut k: u8 = 0;
            while k < local_vars
                invariant
                    k <= local_vars,
                    code@ == leb128_bytes(local_vars as nat) + local_decl_bytes(k as nat),
                decreases local_vars - k,
            {
                write_leb128(&mut code, 1);  // one local in this group
                write_u8(&mut code, I32);
                k = k + 1;
                proof {
                    lemma_local_decl_bytes_snoc(k as nat);
                    assert(code@ =~= leb128_bytes(local_vars as nat) + local_decl_bytes(
                        k as nat,
                    ));
                }
            }
            let ghost decls = code@;
            let mut w: usize = 0;
            while w < entry.3.len()
                invariant
                    w <= entry.3@.len(),
                    code@ == decls + wasts_bytes(entry.3@.subrange(0, w as int)),
                decreases entry.3@.len() - w,
            {
                entry.3[w].to_binary(&mut code);
                w = w + 1;
                proof {
                    assert(entry.3@.subrange(0, w as int) =~= entry.3@.subrange(
                        0,
                        w as int - 1,
                    ).push(entry.3@[w as int - 1]));
                    lemma_wasts_bytes_push(
                        entry.3@.subrange(0, w as int - 1),
                        entry.3@[w as int - 1],
                    );
                    assert(code@ =~= decls + wasts_bytes(entry.3@.subrange(0, w as int)));
                }
            }
            write_u8(&mut code, END);
            proof {
                assert(entry.3@.subrange(0, entry.3@.len() as int) =~= entry.3@);
                assert(code@ =~= leb128_bytes(local_vars as nat) + local_decl_bytes(
                    local_vars as nat,
                ) + wasts_bytes(entry.3@) + seq![END]);
            }
            write_leb128(&mut fns_vec, code.len());
            fns_vec.append(&mut code);
            i = i + 1;
            proof {
                assert(fns_vec@ + code_entries_bytes(fv, i as int) =~= leb128_bytes(
                    elements as nat,
                ) + code_entries_bytes(fv, 0));
            }
        }
        write_u8(vec, CODE_SECTION);
        write_leb128(vec, fns_vec.len());
        vec.append(&mut fns_vec);
        proof {
            assert(vec@ =~= old(vec)@ + code_section_bytes(fv));
        }
    } else {
        proof {
            assert(vec@ =~= old(vec)@ + code_section_bytes(fv));
        }
    }
}

proof fn lemma_local_decl_bytes_snoc(n: nat)
    requires
        n >= 1,
    ensures
        local_decl_bytes(n) == local_decl_bytes((n - 1) as nat) + leb128_bytes(1) + seq![I32],
    decreases n,
{
    if n == 1 {
        assert(local_decl_bytes(1) =~= local_decl_bytes(0) + leb128_bytes(1) + seq![I32]);
    } else {
        lemma_local_decl_bytes_snoc((n - 1) as nat);
        assert(local_decl_bytes(n) =~= local_decl_bytes((n - 1) as nat) + leb128_bytes(1)
            + seq![I32]);
    }
}

impl Module {
    /// Appends the complete binary module: the fixed 8-byte header, then
    /// each section in ascending identifier order.
    pub fn to_binary(&self, vec: &mut Vec<u8>)
        requires
            self.imports@.len() + self.functions@.len() <= usize::MAX,
        ensures
            final(vec)@ == old(vec)@ + module_bytes(
                imports_view(self.imports@),
                funcs_view(self.functions@),
            ),
    {
        write_u32_le(vec, WASM_MAGIC);
        write_u32_le(vec, WASM_VERSION);
        types_section(self, vec);
        import_section(&self.imports, vec);
        functions_section(&self.functions, self.imports.len(), vec);
        memory_section(vec);
        exports_section(&self.functions, self.imports.len(), vec);
        code_section(&self.functions, vec);
        proof {
            assert(vec@ =~= old(vec)@ + module_bytes(
                imports_view(self.imports@),
                funcs_view(self.functions@),
            ));
        }
    }
}

/// The import module name `"io"` in UTF-8.
pub open spec fn io_name() -> Seq<u8> {
    seq![0x69u8, 0x6fu8]
}

/// The import field name `"print"` in UTF-8.
pub open spec fn print_name() -> Seq<u8> {
    seq![0x70u8, 0x72u8, 0x69u8, 0x6eu8, 0x74u8]
}

/// The import field name `"read"` in UTF-8.
pub open spec fn read_name() -> Seq<u8> {
    seq![0x72u8, 0x65u8, 0x61u8, 0x64u8]
}

/// The export name `"exec"` in UTF-8.
pub open spec fn exec_name() -> Seq<u8> {
    seq![0x65u8, 0x78u8, 0x65u8, 0x63u8]
}

fn io_name_vec() -> (r: Vec<u8>)
    ensures
        r@ == io_name(),
{
    let mut v: Vec<u8> = Vec::new();
    v.push(0x69);
    v.push(0x6f);
    proof {
        assert(v@ =~= io_name());
    }
    v
}

fn print_name_vec() -> (r: Vec<u8>)
    ensures
        r@ == print_name(),
{
    let mut v: Vec<u8> = Vec::new();
    v.push(0x70);
    v.push(0x72);
    v.push(0x69);
    v.push(0x6e);
    v.push(0x74);
    proof {
        assert(v@ =~= print_name());
    }
    v
}

fn read_name_vec() -> (r: Vec<u8>)
    ensures
        r@ == read_name(),
{
    let mut v: Vec<u8> = Vec::new();
    v.push(0x72);
    v.push(0x65);
    v.push(0x61);
    v.push(0x64);
    proof {
        assert(v@ =~= read_name());
    }
    v
}

fn exec_name_vec() -> (r: Vec<u8>)
    ensures
        r@ == exec_name(),
{
    let mut v: Vec<u8> = Vec::new();
    v.push(0x65);
    v.push(0x78);
    v.push(0x65);
    v.push(0x63);
    proof {
        assert(v@ =~= exec_name());
    }
    v
}

/// The two host imports every emitted module declares: `io.print` taking one
/// i32, and `io.read` returning one i32.
pub open spec fn spec_imports() -> Seq<SpecImport> {
    seq![
        SpecImport {
            module: io_name(),
            field: print_name(),
            td: TypeDef { params: 1, result: false },
        },
        SpecImport { module: io_name(), field: read_name(), td: TypeDef { params: 0, result: true } },
    ]
}

/// The one defined function: the program entry point, exported as `"exec"`,
/// no parameters, no result, one i32 local holding the pointer register.
pub open spec fn spec_function(code: Seq<Wast>) -> Seq<SpecFunc> {
    seq![
        SpecFunc {
            name: exec_name(),
            td: TypeDef { params: 0, result: false },
            local_vars: 1,
            code: code,
        },
    ]
}

/// The bytes of the module emitted for an operation sequence: the lowered
/// instruction list after the peephole merge, in a module with the two host
/// imports and the exported entry point.
pub open spec fn spec_to_wasm(s: Seq<SpecOp>) -> Seq<u8> {
    module_bytes(spec_imports(), spec_function(spec_peephole(lower_ops(s), 0)))
}

/// Lowers an optimized operation sequence to instructions, applies the
/// peephole merge, and assembles the complete binary module.
pub fn to_wasm(ops: &[Op]) -> (r: Vec<u8>)
    ensures
        r@ == spec_to_wasm(view_ops(ops@)),
{
    let ghost sv = view_ops(ops@);
    proof {
        crate::brainfuck::lemma_view_ops(ops@);
    }
    let mut wast: Vec<Wast> = Vec::new();
    let mut i: usize = 0;
    while i < ops.len()
        invariant
            i <= ops@.len(),
            sv == view_ops(ops@),
            sv.len() == ops@.len(),
            forall|k: int| 0 <= k < ops@.len() ==> sv[k] == view_op(ops@[k]),
            wast@ + lower_ops_from(sv, i as int) == lower_ops_from(sv, 0),
        decreases ops@.len() - i,
    {
        to_wasmt(&ops[i], &mut wast);
        i = i + 1;
        proof {
            assert(wast@ + lower_ops_from(sv, i as int) =~= lower_ops_from(sv, 0));
        }
    }
    proof {
        assert(wast@ =~= lower_ops(sv));
    }
    let wast = simple_optimasation(&wast);

    let mut imports: Vec<(Vec<u8>, Vec<u8>, TypeDef)> = Vec::new();
    imports.push((io_name_vec(), print_name_vec(), TypeDef { result: false, params: 1 }));
    imports.push((io_name_vec(), read_name_vec(), TypeDef { result: true, params: 0 }));
    let mut functions: Vec<(Vec<u8>, TypeDef, u8, Vec<Wast>)> = Vec::new();
    functions.push((exec_name_vec(), TypeDef { result: false, params: 0 }, 1, wast));
    let module = Module { imports, functions };
    proof {
        assert(imports_view(module.imports@) =~~= spec_imports());
        assert(funcs_view(module.functions@) =~~= spec_function(
            spec_peephole(lower_ops(sv), 0),
        ));
    }

    let mut module_bin: Vec<u8> = Vec::new();
    module.to_binary(&mut module_bin);
    module_bin
}

} // verus!
