use yara_x::bitmap::{check_for_pattern_match, pattern_bitmap};
use yara_x::pikevm::PikeVM;
use yara_x::re_code::{decode_instr, Instr};
use yara_x::re_compile::{compile_literal, Assembler};

#[test]
fn literal_program() {
    let code = compile_literal(b"abc", false);
    assert_eq!(code, vec![0x02, b'a', 0x02, b'b', 0x02, b'c', 0x00]);
    let mut vm = PikeVM::new();
    assert_eq!(vm.try_match(&code, 0, b"abcdef", &[]), Some(3));
    assert_eq!(vm.try_match(&code, 0, b"abx", &[]), None);
    assert_eq!(vm.try_match(&code, 0, b"ab", &[]), None);
}

#[test]
fn nocase_literal_program() {
    let code = compile_literal(b"a1", true);
    assert_eq!(code, vec![0x03, b'A', 0xdf, 0x02, b'1', 0x00]);
    let mut vm = PikeVM::new();
    assert_eq!(vm.try_match(&code, 0, b"A1", &[]), Some(2));
    assert_eq!(vm.try_match(&code, 0, b"a1", &[]), Some(2));
    assert_eq!(vm.try_match(&code, 0, b"a!", &[]), None);
}

/// `a(b|c)*d` built by hand with splits and jumps.
fn star_program() -> Vec<u8> {
    let mut a = Assembler::new();
    a.emit_byte(b'a'); // 0
    let split = a.location(); // 2
    a.emit_split(0, 0); // 2..11
    let body = a.location(); // 11
    a.emit_split(9, 0); // 11..20: b or c
    a.emit_byte(b'b'); // 20
    let j1 = a.location();
    a.emit_jump(0); // 22..27
    let c_at = a.location(); // 27
    a.emit_byte(b'c'); // 27..29
    let back = a.location(); // 29
    a.emit_jump(split as i32 - back as i32);
    let exit = a.location(); // 34
    a.emit_byte(b'd');
    a.emit_match();
    a.patch(split + 1, (body - split) as i32);
    a.patch(split + 5, (exit - split) as i32);
    a.patch(body + 5, (c_at - body) as i32);
    a.patch(body + 1, (body + 9 - body) as i32);
    a.patch(j1 + 1, (back - j1) as i32);
    a.code
}

#[test]
fn splits_and_jumps() {
    let code = star_program();
    assert_eq!(decode_instr(&code, 0), Some((Instr::Byte(b'a'), 2)));
    let mut vm = PikeVM::new();
    assert_eq!(vm.try_match(&code, 0, b"ad", &[]), Some(2));
    assert_eq!(vm.try_match(&code, 0, b"abcbd!", &[]), Some(5));
    assert_eq!(vm.try_match(&code, 0, b"abx", &[]), None);
}

#[test]
fn word_boundary_reads_previous_byte() {
    // \bab
    let code = vec![0x08, 0x02, b'a', 0x02, b'b', 0x00];
    let mut vm = PikeVM::new();
    assert_eq!(vm.try_match(&code, 0, b"ab", &[]), Some(2));
    assert_eq!(vm.try_match(&code, 0, b"ab", &[b' ']), Some(2));
    assert_eq!(vm.try_match(&code, 0, b"ab", &[b'x']), None);
}

#[test]
fn empty_match_and_bad_code() {
    let mut vm = PikeVM::new();
    assert_eq!(vm.try_match(&[0x00], 0, b"xyz", &[]), Some(0));
    // Unknown opcode: no thread survives.
    assert_eq!(vm.try_match(&[0xff], 0, b"xyz", &[]), None);
    // A jump out of the code.
    assert_eq!(vm.try_match(&[0x06, 0x40, 0, 0, 0], 0, b"xyz", &[]), None);
}

#[test]
fn class_instructions() {
    // [a-c0-1] then Match
    let ranges = vec![0x04, 2, b'a', b'c', b'0', b'1', 0x00];
    let mut vm = PikeVM::new();
    assert_eq!(vm.try_match(&ranges, 0, b"b", &[]), Some(1));
    assert_eq!(vm.try_match(&ranges, 0, b"1", &[]), Some(1));
    assert_eq!(vm.try_match(&ranges, 0, b"d", &[]), None);
    let mut bitmap = vec![0x05];
    let mut bits = [0u8; 32];
    bits[(b'z' / 8) as usize] |= 1 << (b'z' % 8);
    bitmap.extend_from_slice(&bits);
    bitmap.push(0x00);
    assert_eq!(vm.try_match(&bitmap, 0, b"z", &[]), Some(1));
    assert_eq!(vm.try_match(&bitmap, 0, b"y", &[]), None);
}

#[test]
fn pattern_bitmap_probe() {
    let flags = vec![true, false, false, true, false, false, false, false, false, true];
    let bm = pattern_bitmap(&flags);
    assert_eq!(bm, vec![0b0000_1001, 0b0000_0010]);
    for (i, f) in flags.iter().enumerate() {
        assert_eq!(check_for_pattern_match(&bm, i), *f);
    }
    assert_eq!(pattern_bitmap(&vec![]), Vec::<u8>::new());
}

#[test]
fn nocase_program_ignores_case_only_of_letters() {
    let code = compile_literal(b"Ab@", true);
    let mut vm = PikeVM::new();
    for input in [&b"ab@"[..], b"AB@", b"aB@x"] {
        assert_eq!(vm.try_match(&code, 0, input, &[]), Some(3));
    }
    // `@` (0x40) and a backquote (0x60) differ only in the case bit, but
    // they are not letters.
    assert_eq!(vm.try_match(&code, 0, b"ab`", &[]), None);
}

#[test]
fn shortest_match_is_returned() {
    // a b* with the repetition preferred: the shortest accepted prefix wins.
    let mut a = Assembler::new();
    a.emit_byte(b'a');
    a.emit_split(9, 16);
    a.emit_byte(b'b');
    a.emit_jump(-11);
    a.emit_match();
    let code = a.code;
    let mut vm = PikeVM::new();
    assert_eq!(vm.try_match(&code, 0, b"abbb", &[]), Some(1));
    assert_eq!(vm.try_match(&code, 0, b"b", &[]), None);
    let mut fresh = PikeVM::new();
    assert_eq!(fresh.try_match(&code, 0, b"abbb", &[]), vm.try_match(&code, 0, b"abbb", &[]));
}
