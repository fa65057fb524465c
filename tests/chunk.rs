use lox::chunk::{Chunk, Opcode};
use lox::value::Value;

#[test]
fn line_table_replays_every_offset() {
    let mut chunk = Chunk::new();
    let lines = [1usize, 1, 1, 2, 2, 5, 1, 1, 7, 7, 7, 7, 3];
    for (i, line) in lines.iter().enumerate() {
        chunk.write(i as u8, *line);
    }
    assert_eq!(chunk.code.len(), lines.len());
    for (offset, line) in lines.iter().enumerate() {
        assert_eq!(chunk.line_at(offset), *line);
    }
    // One run per stretch of equal lines.
    assert_eq!(chunk.lines, vec![(3, 1), (2, 2), (1, 5), (2, 1), (4, 7), (1, 3)]);
}

#[test]
fn line_at_single_line() {
    let mut chunk = Chunk::new();
    for _ in 0..300 {
        chunk.write(0, 42);
    }
    assert_eq!(chunk.lines, vec![(300, 42)]);
    assert_eq!(chunk.line_at(0), 42);
    assert_eq!(chunk.line_at(299), 42);
}

#[test]
fn add_constant_gives_indices_in_order() {
    let mut chunk = Chunk::new();
    assert_eq!(chunk.add_constant(Value::Nil), 0);
    assert_eq!(chunk.add_constant(Value::Bool(true)), 1);
    assert_eq!(chunk.constants.len(), 2);
    assert_eq!(chunk.code.len(), 0);
}

#[test]
fn opcode_bytes_round_trip() {
    let ops = [
        Opcode::Return,
        Opcode::Constant,
        Opcode::Nil,
        Opcode::True,
        Opcode::False,
        Opcode::Neg,
        Opcode::Not,
        Opcode::Add,
        Opcode::Sub,
        Opcode::Mul,
        Opcode::Div,
        Opcode::Equal,
        Opcode::Greater,
        Opcode::Less,
    ];
    for (i, op) in ops.iter().enumerate() {
        let b: u8 = (*op).into();
        assert_eq!(b as usize, i);
        assert_eq!(Opcode::from(b), *op);
    }
    assert_eq!(u8::from(Opcode::Error), 255);
    assert_eq!(Opcode::from(14), Opcode::Error);
    assert_eq!(Opcode::from(200), Opcode::Error);
}

#[test]
fn disassembly_lists_instructions() {
    let mut chunk = Chunk::new();
    let i = chunk.add_constant(Value::Nil);
    chunk.write(Opcode::Constant.into(), 1);
    chunk.write(i as u8, 1);
    chunk.write(Opcode::Neg.into(), 1);
    chunk.write(Opcode::Return.into(), 2);
    let listing = chunk.disassemble();
    assert_eq!(listing.len(), 3);
    assert_eq!((listing[0].offset, listing[0].line, listing[0].operand, listing[0].next), (0, Some(1), Some(0), 2));
    assert_eq!((listing[1].offset, listing[1].line, listing[1].opcode), (2, None, Opcode::Neg));
    assert_eq!((listing[2].offset, listing[2].line, listing[2].next), (3, Some(2), 4));
}

#[test]
fn disassembly_stops_at_unknown_opcode() {
    let mut chunk = Chunk::new();
    chunk.write(200, 1);
    chunk.write(0, 1);
    let listing = chunk.disassemble();
    assert_eq!(listing.len(), 1);
    assert_eq!(listing[0].opcode, Opcode::Error);
    assert_eq!(listing[0].next, 2);
}
