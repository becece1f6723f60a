use brainfuck::brainfuck::{compact, get_ast, Op};
use brainfuck::leb128::encode_unsigned;
use brainfuck::wasm::{simple_optimasation, to_wasm, to_wasmt, Wast};

fn chars(s: &str) -> Vec<char> {
    s.chars().collect()
}

fn compile(s: &str) -> Vec<u8> {
    let (ast, _) = get_ast(&chars(s)).expect("source should parse");
    to_wasm(&compact(&ast))
}

#[test]
fn leb128_single_byte_values() {
    assert_eq!(encode_unsigned(0), vec![0x00]);
    assert_eq!(encode_unsigned(1), vec![0x01]);
    assert_eq!(encode_unsigned(127), vec![0x7f]);
}

#[test]
fn leb128_multi_byte_values() {
    assert_eq!(encode_unsigned(128), vec![0x80, 0x01]);
    assert_eq!(encode_unsigned(624_485), vec![0xe5, 0x8e, 0x26]);
    assert_eq!(encode_unsigned(u32::MAX), vec![0xff, 0xff, 0xff, 0xff, 0x0f]);
}

#[test]
fn instruction_encodings() {
    let cases: Vec<(Wast, Vec<u8>)> = vec![
        (Wast::I32Store8, vec![0x3a, 0x00, 0x00]),
        (Wast::I32Load8u, vec![0x2d, 0x00, 0x00]),
        (Wast::I32Add, vec![0x6a]),
        (Wast::I32Sub, vec![0x6b]),
        (Wast::I32Eqz, vec![0x45]),
        (Wast::Block, vec![0x02, 0x40]),
        (Wast::Loop, vec![0x03, 0x40]),
        (Wast::End, vec![0x0b]),
        (Wast::I32Const(9), vec![0x41, 0x09]),
        (Wast::SetLocal(0), vec![0x21, 0x00]),
        (Wast::GetLocal(0), vec![0x20, 0x00]),
        (Wast::TeeLocal(3), vec![0x22, 0x03]),
        (Wast::Call(1), vec![0x10, 0x01]),
        (Wast::Br(0), vec![0x0c, 0x00]),
        (Wast::BrIf(1), vec![0x0d, 0x01]),
    ];
    for (w, expected) in cases {
        let mut buf = Vec::new();
        w.to_binary(&mut buf);
        assert_eq!(buf, expected, "encoding of {:?}", w);
    }
}

#[test]
fn lowering_of_cell_increment() {
    let mut res = Vec::new();
    to_wasmt(&Op::IncVal(2), &mut res);
    assert_eq!(
        res,
        vec![
            Wast::GetLocal(0),
            Wast::GetLocal(0),
            Wast::I32Load8u,
            Wast::I32Const(2),
            Wast::I32Add,
            Wast::I32Store8,
        ]
    );
}

#[test]
fn lowering_of_loop() {
    let mut res = Vec::new();
    to_wasmt(
        &Op::While {
            ops: vec![Op::DecVal(1)],
        },
        &mut res,
    );
    assert_eq!(
        res,
        vec![
            Wast::Block,
            Wast::Loop,
            Wast::GetLocal(0),
            Wast::I32Load8u,
            Wast::I32Eqz,
            Wast::BrIf(1),
            Wast::GetLocal(0),
            Wast::GetLocal(0),
            Wast::I32Load8u,
            Wast::I32Const(1),
            Wast::I32Sub,
            Wast::I32Store8,
            Wast::Br(0),
            Wast::End,
            Wast::End,
        ]
    );
}

#[test]
fn peephole_merges_set_then_get() {
    let merged = simple_optimasation(&vec![Wast::SetLocal(0), Wast::GetLocal(0)]);
    assert_eq!(merged, vec![Wast::TeeLocal(0)]);
}

#[test]
fn peephole_leaves_different_slots_alone() {
    let kept = simple_optimasation(&vec![Wast::SetLocal(0), Wast::GetLocal(1)]);
    assert_eq!(kept, vec![Wast::SetLocal(0), Wast::GetLocal(1)]);
}

#[test]
fn peephole_merges_each_pair_once() {
    let merged = simple_optimasation(&vec![
        Wast::SetLocal(0),
        Wast::GetLocal(0),
        Wast::GetLocal(0),
    ]);
    assert_eq!(merged, vec![Wast::TeeLocal(0), Wast::GetLocal(0)]);
    let staggered = simple_optimasation(&vec![
        Wast::SetLocal(0),
        Wast::SetLocal(0),
        Wast::GetLocal(0),
    ]);
    assert_eq!(staggered, vec![Wast::SetLocal(0), Wast::TeeLocal(0)]);
}

#[test]
fn module_header_and_end_marker() {
    // Scenario: the buffer opens with the fixed magic and version, and the
    // code section's function body ends with the end opcode.
    let bytes = compile(".");
    assert_eq!(&bytes[..8], &[0x00, 0x61, 0x73, 0x6d, 0x01, 0x00, 0x00, 0x00]);
    assert_eq!(*bytes.last().unwrap(), 0x0b);
}

fn read_leb128(bytes: &[u8], pos: &mut usize) -> u64 {
    let mut value: u64 = 0;
    let mut shift = 0;
    loop {
        let byte = bytes[*pos];
        *pos += 1;
        value |= u64::from(byte & 0x7f) << shift;
        if byte & 0x80 == 0 {
            return value;
        }
        shift += 7;
    }
}

#[test]
fn section_length_fields_are_exact() {
    // Walking the buffer by the declared section lengths visits each section
    // once and lands exactly on the end of the buffer.
    for src in [".", "", "+[-]", "++++++++[>++++++++<-]>.", ",."] {
        let bytes = compile(src);
        let mut pos = 8;
        let mut ids = Vec::new();
        while pos < bytes.len() {
            let id = bytes[pos];
            pos += 1;
            let size = read_leb128(&bytes, &mut pos) as usize;
            pos += size;
            assert!(pos <= bytes.len(), "section {} overruns the buffer", id);
            ids.push(id);
        }
        assert_eq!(pos, bytes.len());
        assert_eq!(ids, vec![1, 2, 3, 5, 7, 10], "section ids for {:?}", src);
    }
}

#[test]
fn module_bytes_for_single_print() {
    let expected: Vec<u8> = vec![
        // header: magic and version
        0x00, 0x61, 0x73, 0x6d, 0x01, 0x00, 0x00, 0x00,
        // type section: print, read and the entry point
        0x01, 0x0c, 0x03, 0x60, 0x01, 0x7f, 0x00, 0x60, 0x00, 0x01, 0x7f, 0x60, 0x00, 0x00,
        // import section: io.print and io.read
        0x02, 0x16, 0x02, 0x02, 0x69, 0x6f, 0x05, 0x70, 0x72, 0x69, 0x6e, 0x74, 0x00, 0x00,
        0x02, 0x69, 0x6f, 0x04, 0x72, 0x65, 0x61, 0x64, 0x00, 0x01,
        // function section: the entry point uses type index 2
        0x03, 0x02, 0x01, 0x02,
        // memory section: one memory of one page
        0x05, 0x03, 0x01, 0x00, 0x01,
        // export section: "exec" at function index 2
        0x07, 0x08, 0x01, 0x04, 0x65, 0x78, 0x65, 0x63, 0x00, 0x02,
        // code section: one local, then get-local, load, call print, end
        0x0a, 0x0d, 0x01, 0x0b, 0x01, 0x01, 0x7f, 0x20, 0x00, 0x2d, 0x00, 0x00, 0x10, 0x00,
        0x0b,
    ];
    assert_eq!(compile("."), expected);
}
