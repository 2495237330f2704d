use bric_vm::assembler::preprocessor::preprocess;
use bric_vm::assembler::run;
use bric_vm::debugger::Debugger;
use bric_vm::disassembler::{disassemble, disassemble_inst};
use bric_vm::mmio::uart::{connect_uart, Uart, DA, IO, IR, OR, OW, RU, U_IFL, U_IN, U_OFL, U_OUT};
use bric_vm::util::{number_literal_to_u16, AccessLevels, Region, RegionMap};
use bric_vm::vm::{alu_compute, AluInstruction, Instruction, Register, Vm, VmDescription};
use bric_vm::BError;

fn machine(rom: Vec<u16>) -> Vm {
    Vm::new(VmDescription { rom, ..Default::default() }).unwrap()
}

#[test]
fn decode_encode_round_trip_on_every_word() {
    for w in 0..=0xffffu32 {
        let w = w as u16;
        assert_eq!(Instruction::from_u16(w).to_u16(), w);
    }
}

#[test]
fn data_word_loads_a_and_halts_past_rom() {
    let mut vm = machine(vec![0x9234, 0x0000]);
    vm.cycle().unwrap();
    assert_eq!(vm.get_reg(Register::A), 0x1234);
    assert_eq!(vm.get_pc(), 1);
    vm.cycle().unwrap();
    assert_eq!(vm.get_pc(), 2);
    assert!(matches!(vm.cycle(), Err(BError::ExecutionHaltedError { value: 2 })));
}

#[test]
fn pc_wraps_after_last_word() {
    let mut rom = vec![0u16; 0x10000];
    rom[0xffff] = 0x8005;
    let mut vm = machine(rom);
    vm.set_pc(0xffff);
    vm.cycle().unwrap();
    assert_eq!(vm.get_pc(), 0);
    assert_eq!(vm.get_reg(Register::A), 5);
}

#[test]
fn alu_arithmetic_wraps() {
    assert_eq!(alu_compute(true, 0, 0xffff, 1), Some(0));
    assert_eq!(alu_compute(true, 1, 0, 1), Some(0xffff));
    assert_eq!(alu_compute(true, 2, 0xffff, 0), Some(0));
    assert_eq!(alu_compute(true, 3, 0, 0), Some(0xffff));
    assert_eq!(alu_compute(true, 0, 0x1234, 0x1111), Some(0x2345));
    assert_eq!(alu_compute(true, 4, 0x8001, 0), Some(0x8002));
    assert_eq!(alu_compute(true, 5, 1, 1), None);
}

#[test]
fn alu_logic_table() {
    assert_eq!(alu_compute(false, 0, 0b1100, 0b1010), Some(0b1000));
    assert_eq!(alu_compute(false, 1, 0b1100, 0b1010), Some(0b1110));
    assert_eq!(alu_compute(false, 2, 0b1100, 0b1010), Some(0b0110));
    assert_eq!(alu_compute(false, 3, 0x00ff, 0), Some(0xff00));
    assert_eq!(alu_compute(false, 4, 0x8001, 0), Some(0x0002));
    assert_eq!(alu_compute(false, 5, 0x8001, 0), Some(0x4000));
    assert_eq!(alu_compute(false, 6, 0x8001, 0), Some(0x0003));
    assert_eq!(alu_compute(false, 7, 0x8001, 0), Some(0xc000));
}

#[test]
fn invalid_operation_is_reported() {
    // u = 1, op = 5
    let mut vm = machine(vec![0x0d00]);
    assert!(matches!(
        vm.cycle(),
        Err(BError::InvalidInstructionError { instruction: 0x0d00 })
    ));
    assert_eq!(vm.get_pc(), 0);
}

#[test]
fn jump_conditions_follow_the_flags() {
    // For each condition: A = 10, D = (0 - A) or (A - A) or (A + 0) .. then jump to A.
    let cases = [
        ("JLT", "D = sub, 0, A", true),
        ("JLT", "D = add, 0, A", false),
        ("JEQ", "D = sub, A, A", true),
        ("JEQ", "D = add, 0, A", false),
        ("JGT", "D = add, 0, A", true),
        ("JGT", "D = sub, A, A", false),
        ("JLE", "D = sub, A, A", true),
        ("JLE", "D = add, 0, A", false),
        ("JGE", "D = add, 0, A", true),
        ("JGE", "D = sub, 0, A", false),
        ("JNE", "D = sub, 0, A", true),
        ("JNE", "D = sub, A, A", false),
    ];
    for (cond, op, taken) in cases {
        let src = format!("[text]\nA = 10\n{}; {}\n", op, cond);
        let mut vm = Vm::new(run(&src).unwrap()).unwrap();
        vm.cycle().unwrap();
        vm.cycle().unwrap();
        let expected = if taken { 10 } else { 2 };
        assert_eq!(vm.get_pc(), expected, "{} after {}", cond, op);
    }
}

#[test]
fn define_is_substituted() {
    let d = run("[macros]\ndefine X 7\n[text]\nA = X\n").unwrap();
    assert_eq!(d.rom[0], 0x8007);
}

#[test]
fn macro_is_expanded() {
    let src = "[macros]\nbegin LOAD(v)\nA = v\nD = add, 0, A\nend\n[text]\nLOAD(5)\n";
    let d = run(src).unwrap();
    assert_eq!(d.rom[0], 0x8005);
    let mut vm = Vm::new(d).unwrap();
    vm.cycle().unwrap();
    vm.cycle().unwrap();
    assert_eq!(vm.get_reg(Register::D), 5);
}

#[test]
fn preprocess_rejects_reserved_names() {
    assert!(matches!(preprocess("define A 1", "A = 1"), Err(BError::AsmParseError(_))));
    assert!(matches!(preprocess("define add 1", "A = 1"), Err(BError::AsmParseError(_))));
    assert!(matches!(preprocess("define X 1\ndefine X 2", "A = 1"), Err(BError::AsmParseError(_))));
    assert!(matches!(preprocess("nonsense", "A = 1"), Err(BError::AsmParseError(_))));
}

#[test]
fn consts_block_is_appended_and_mapped() {
    let d = run("[text]\nA = 1\n[consts 0x100]\nM = 1\nM = 2\nM = 3\n").unwrap();
    assert_eq!(d.rom.len(), 19);
    assert_eq!(&d.rom[16..], &[1, 2, 3]);
    assert_eq!(d.rom_mappings, vec![(16, 3, 0x100)]);
}

#[test]
fn default_mount_point() {
    let d = run("[text]\nA = 1\n").unwrap();
    assert_eq!(d.rom_mappings, vec![(16, 0, 0xfff0)]);
}

#[test]
fn forward_label_is_resolved() {
    let d = run("[text]\nA = forward\nD = add, 0, A\nlabel forward:\nD = add, 0, A\n").unwrap();
    assert_eq!(d.rom[0], 0x8000 | 2);
}

#[test]
fn const_label_points_into_ram() {
    let d = run("[text]\nA = value\nD = add, 0, *A\n[consts 0x200]\nlabel value:\nM = 42\n").unwrap();
    assert_eq!(d.rom[0], 0x8000 | 0x200);
    let mut vm = Vm::new(d).unwrap();
    vm.cycle().unwrap();
    vm.cycle().unwrap();
    assert_eq!(vm.get_reg(Register::D), 42);
}

#[test]
fn assembler_errors() {
    assert!(matches!(run("A = 1\n"), Err(BError::AsmParseError(_))));
    assert!(matches!(run("[text]\nA = 0x8000\n"), Err(BError::AsmParseError(_))));
    assert!(matches!(run("[text]\nA = missing\n"), Err(BError::AsmParseError(_))));
    assert!(matches!(run("[text]\nlabel x:\nlabel x:\n"), Err(BError::AsmParseError(_))));
    assert!(matches!(run("[text]\nD = add, A, 0\n"), Err(BError::AsmParseError(_))));
    assert!(matches!(run("[text]\nX = 1\n"), Err(BError::AsmParseError(_))));
    assert!(matches!(run("[text]\nD = add, A; JXX\n"), Err(BError::AsmParseError(_))));
    assert!(matches!(run("[text]\nA = 1 = 2\n"), Err(BError::AsmParseError(_))));
}

#[test]
fn mnemonics_ignore_case_and_rotate_as_named() {
    let d = run("[text]\nD = ADD, 0, A\nD = rol, D\nD = ror, D\n").unwrap();
    assert_eq!(AluInstruction(d.rom[0]).get_op(), 0);
    assert_eq!(AluInstruction(d.rom[1]).get_op(), 6);
    assert_eq!(AluInstruction(d.rom[2]).get_op(), 7);
}

#[test]
fn default_image_round_trips_byte_for_byte() {
    let bytes = VmDescription::default().serialize().unwrap();
    assert_eq!(bytes.len(), 40 + 2 * 65536);
    let again = VmDescription::deserialize(&bytes).unwrap().serialize().unwrap();
    assert_eq!(bytes, again);
}

#[test]
fn deserialize_errors() {
    assert!(matches!(VmDescription::deserialize(&[1, 2, 3]), Err(BError::SerializationError(_))));
    let mut bytes = VmDescription::default().serialize().unwrap();
    bytes[0] = b'X';
    assert!(matches!(VmDescription::deserialize(&bytes), Err(BError::DeserializationError(_))));
    let mut short = VmDescription::default().serialize().unwrap();
    short.pop();
    assert!(matches!(VmDescription::deserialize(&short), Err(BError::DeserializationError(_))));
}

#[test]
fn regions_must_not_overlap() {
    assert!(RegionMap::try_from(vec![
        Region::new(0, 10, AccessLevels::Read),
        Region::new(11, 20, AccessLevels::NoAccess),
    ])
    .is_ok());
    assert!(matches!(
        RegionMap::try_from(vec![
            Region::new(0, 10, AccessLevels::Read),
            Region::new(10, 20, AccessLevels::NoAccess),
        ]),
        Err(BError::MapError(_))
    ));
    assert!(matches!(
        RegionMap::try_from(vec![Region::new(5, 4, AccessLevels::Read)]),
        Err(BError::MapError(_))
    ));
    let m = RegionMap::try_from(vec![Region::new(20, 30, AccessLevels::NoAccess), Region::new(0, 10, AccessLevels::Read)]).unwrap();
    assert_eq!(m.find_region(25), Some(&AccessLevels::NoAccess));
    assert_eq!(m.find_region(10), Some(&AccessLevels::Read));
    assert_eq!(m.find_region(15), None);
}

#[test]
fn mapped_rom_is_read_only() {
    let d = VmDescription { rom: vec![0x8000, 7, 8], rom_mappings: vec![(1, 2, 0x10)], ..Default::default() };
    let mut vm = Vm::new(d).unwrap();
    assert_eq!(vm.get_ram_region(0x10, 2), &[7, 8]);
    vm.cycle().unwrap();
    vm.set_reg(Register::A, 0x10);
    vm.set_reg(Register::MA, 99);
    assert_eq!(vm.get_reg(Register::MA), 7);
}

#[test]
fn mapping_errors() {
    let d = VmDescription { rom: vec![1], rom_mappings: vec![(0, 5, 0)], ..Default::default() };
    assert!(matches!(Vm::new(d), Err(BError::MapError(_))));
    let d = VmDescription { rom: vec![1], rom_mappings: vec![(0, 1, 0xffff), (0, 1, 0xffff)], ..Default::default() };
    assert!(matches!(Vm::new(d), Err(BError::MapError(_))));
    let d = VmDescription { rom: vec![1, 2], rom_mappings: vec![(0, 2, 0xffff)], ..Default::default() };
    assert!(matches!(Vm::new(d), Err(BError::OutOfBoundsError(0xffff, 2, 65536))));
}

#[test]
fn set_ram_region_out_of_bounds() {
    let mut vm_mem = bric_vm::vm::Ram::new(vec![0; 65536], RegionMap::empty());
    assert!(matches!(vm_mem.set_ram_region(0xffff, &[1, 2]), Err(BError::OutOfBoundsError(0xffff, 2, 65536))));
}

#[test]
fn register_names_and_codes() {
    assert_eq!(Register::from_str("*A"), Some(Register::MA));
    assert_eq!(Register::from_str("H"), Some(Register::H));
    assert_eq!(Register::from_str("B"), None);
    assert!(matches!(Register::try_from_code(8), Err(BError::InstParseError { value: 8, .. })));
    assert_eq!(Register::try_from_code(3).unwrap(), Register::D);
}

#[test]
fn number_literals() {
    assert_eq!(number_literal_to_u16("0x1F"), Ok(31));
    assert_eq!(number_literal_to_u16("0b101"), Ok(5));
    assert_eq!(number_literal_to_u16("65535"), Ok(65535));
    assert_eq!(number_literal_to_u16("65536"), Err(()));
    assert_eq!(number_literal_to_u16(""), Err(()));
    assert_eq!(number_literal_to_u16("0x"), Err(()));
    assert_eq!(number_literal_to_u16("12a"), Err(()));
}

#[test]
fn disassembly_text() {
    let text = disassemble(&[0x9234, 7], true).unwrap();
    assert_eq!(text, "0x0000:\tA = 4660\n0x0001:\tand, A, None; JMP\n");
    let d = run("[text]\nD = add, 0, A\n*A = sub, A, D; JGE\n").unwrap();
    let mut out = String::new();
    disassemble_inst(&d.rom[0], &mut out).unwrap();
    assert_eq!(out, "D = add, 0, A");
    let mut out = String::new();
    disassemble_inst(&d.rom[1], &mut out).unwrap();
    assert_eq!(out, "*A = sub, A, D; JGE");
}

#[test]
fn uart_queues_and_flags() {
    let mut u = Uart::default();
    assert_eq!(u.get_in_flags(), OR);
    u.put_input(b'x');
    assert_ne!(u.get_in_flags() & DA, 0);
    u.output_flags_changed(IR);
    assert_eq!(u.get_input(), b'x' as u16);
    assert_eq!(u.get_in_flags() & DA, 0);
    u.write_reg_changed(0x1241);
    u.output_flags_changed(OW);
    assert_eq!(u.get_output(), Some(0x41));
    assert_eq!(u.get_output(), None);
    for i in 0..255u32 {
        u.put_input(i as u8);
    }
    assert_ne!(u.get_in_flags() & IO, 0);
    u.output_flags_changed(RU);
    assert_eq!(u.get_in_flags(), OR);
    assert_eq!(u.get_input(), 0);
}

#[test]
fn uart_connects_to_machine() {
    let (vm, _u) = connect_uart(VmDescription::default()).unwrap();
    assert_eq!(vm.get_ram_region(U_IFL, 1), &[OR]);
    let _ = (U_IN, U_OUT, U_OFL);
}

#[test]
fn debugger_prints_through_uart() {
    let src = "[text]\nA = 0x41\nD = add, 0, A\nA = 0x6001\n*A = add, 0, D\nA = 1\nD = add, 0, A\nA = 0x6004\n*A = add, 0, D\n";
    let mut dbg = Debugger::new(run(src).unwrap(), vec![], true).unwrap();
    dbg.run(100).unwrap();
    assert_eq!(dbg.get_uart_out(), "A");
    assert_eq!(dbg.get_uart_out(), "");
}

#[test]
fn debugger_stops_at_breakpoints_and_halts() {
    let src = "[text]\nA = 1\nA = 2\nA = 3\n";
    let mut dbg = Debugger::new(run(src).unwrap(), vec![2], false).unwrap();
    dbg.run(100).unwrap();
    assert_eq!(dbg.get_pc(), 2);
    assert_eq!(dbg.inspect_reg(Register::A), 2);
    assert!(dbg.remove_breakpoint(2));
    assert!(!dbg.remove_breakpoint(2));
    dbg.run(100).unwrap();
    assert_eq!(dbg.inspect_reg(Register::A), 0);
    let pc = dbg.get_pc();
    dbg.step().unwrap();
    assert_eq!(dbg.get_pc(), pc);
}

#[test]
fn debugger_memory_access() {
    let mut dbg = Debugger::new(VmDescription::default(), vec![], false).unwrap();
    dbg.set_memory(0x10, vec![1, 2, 3]).unwrap();
    assert_eq!(dbg.inspect_memory(0x10, 3), &[1, 2, 3]);
    assert!(matches!(dbg.set_memory(0xffff, vec![1, 2]), Err(BError::OutOfBoundsError(..))));
    dbg.set_reg(Register::E, 9);
    assert_eq!(dbg.inspect_reg(Register::E), 9);
    dbg.set_pc(4);
    assert_eq!(dbg.get_pc(), 4);
    assert_eq!(dbg.inspect_rom(0, 4).len(), 0);
}

#[test]
fn debugger_session_round_trip() {
    let mut dbg = Debugger::new(run("[text]\nA = 7\n").unwrap(), vec![3, 1], false).unwrap();
    dbg.register_breakpoint(5);
    dbg.step().unwrap();
    let bytes = dbg.serialize().unwrap();
    assert_eq!(&bytes[0..8], b"BDB\x00BPS\x00");
    assert_eq!(&bytes[8..11], &[0, 3, 0]);
    let mut back = Debugger::deserialize(&bytes).unwrap();
    assert_eq!(back.get_pc(), 1);
    assert_eq!(back.inspect_reg(Register::A), 7);
    assert!(back.remove_breakpoint(1));
    assert!(back.remove_breakpoint(3));
    assert!(back.remove_breakpoint(5));
    assert_eq!(back.get_rom(), dbg.get_rom());
    assert!(matches!(Debugger::deserialize(b"BDB\x00XXX"), Err(BError::SerializationError(_))));
    assert!(matches!(Debugger::deserialize(b"BDB\x00XPS\x00\x00\x00\x00\x00"), Err(BError::DeserializationError(_))));
}

#[test]
fn default_memory_unit_is_zero_and_writable() {
    let mut m = bric_vm::vm::MemoryUnit::default();
    assert_eq!(m.get_regs(), (0, 0, 0, 0, 0, 0));
    m.set_reg(Register::A, 0xffff);
    m.set_reg(Register::MA, 3);
    assert_eq!(m.get_reg(Register::MA), 3);
}

#[test]
fn macro_arguments_are_replaced_in_order() {
    let m = bric_vm::assembler::preprocessor::Macro::new(
        vec!['M'],
        vec![vec!['x'], vec!['y']],
    );
    let mut m = m;
    m.body.push("D = x; JMP".chars().collect());
    m.body.push("E = y ".chars().collect());
    let out = m.replace_args(&vec![vec!['1'], vec!['2']]);
    let text: Vec<String> = out.iter().map(|l| l.iter().collect()).collect();
    assert_eq!(text, vec!["D = 1; JMP".to_string(), "E = 2 ".to_string()]);
}

#[test]
fn make_dbg_reads_images_and_sessions() {
    let image = VmDescription::default().serialize().unwrap();
    let mut dbg = bric_vm::debugger::make_dbg(&image, false, false).unwrap();
    dbg.register_breakpoint(9);
    let session = dbg.serialize().unwrap();
    let mut back = bric_vm::debugger::make_dbg(&session, true, false).unwrap();
    assert!(back.remove_breakpoint(9));
    assert!(bric_vm::debugger::make_dbg(&session, false, false).is_err());
}

#[test]
fn adjacent_mappings_share_no_word() {
    let d = VmDescription { rom: vec![5, 6], rom_mappings: vec![(0, 1, 0x100), (1, 1, 0x101)], ..Default::default() };
    let mut vm = Vm::new(d).unwrap();
    assert_eq!(vm.get_ram_region(0x100, 3), &[5, 6, 0]);
    vm.set_reg(Register::A, 0x102);
    vm.set_reg(Register::MA, 9);
    assert_eq!(vm.get_reg(Register::MA), 9);
    vm.set_reg(Register::A, 0x101);
    vm.set_reg(Register::MA, 9);
    assert_eq!(vm.get_reg(Register::MA), 6);
}

#[test]
fn empty_consts_block_leaves_ram_writable() {
    let mut vm = Vm::new(run("[text]\nA = 1\n").unwrap()).unwrap();
    vm.set_reg(Register::A, 0xfff0);
    vm.set_reg(Register::MA, 4);
    assert_eq!(vm.get_reg(Register::MA), 4);
}

#[test]
fn uart_input_flags_stay_writable() {
    let (mut vm, _u) = connect_uart(VmDescription::default()).unwrap();
    vm.set_reg(Register::A, U_IFL);
    vm.set_reg(Register::MA, 7);
    assert_eq!(vm.get_reg(Register::MA), 7);
    vm.set_reg(Register::A, U_IN);
    vm.set_reg(Register::MA, 7);
    assert_eq!(vm.get_reg(Register::MA), 0);
}

#[test]
fn define_is_not_substituted_before_a_bar() {
    let (out, _) = preprocess("define X 7", "A = X|\nA = X;\r\nA = X").unwrap();
    assert_eq!(out, "A = X|\nA = 7;\r\nA = X");
    let (out, _) = preprocess("define X 7", "A = X;").unwrap();
    assert_eq!(out, "A = 7;");
}

#[test]
fn assembly_errors_name_their_line() {
    match run("[text]\nA = 1\nX = 2\n") {
        Err(BError::AsmParseError(m)) => assert!(m.starts_with("error on line 3: X = 2\n")),
        _ => panic!("expected an assembly error"),
    }
}

#[test]
fn markers_before_macros_are_rejected() {
    assert!(matches!(run("[consts 5]\n[macros]\n[text]\nA = 1\n"), Err(BError::AsmParseError(_))));
    assert!(matches!(run("[text]\n[macros]\n[text]\nA = 1\n"), Err(BError::AsmParseError(_))));
}
