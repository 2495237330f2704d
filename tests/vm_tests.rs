use bric_vm::assembler;
use bric_vm::util::{AccessLevels, Region, RegionMap};
use bric_vm::vm::{Instruction, MemoryUnit, Pc, Ram, Register, Rom, Vm, VmDescription, RAM_LEN};
use bric_vm::BError;

#[test]
fn test_ram() {
    let mut ram = Ram::new(
        vec![0; 65536],
        RegionMap::try_from(vec![
            Region::new(0x100, 0x1ff, AccessLevels::Read),
            Region::new(0x200, 0x2ff, AccessLevels::NoAccess),
        ])
        .unwrap(),
    );

    // access levels
    ram.write_ram(0, 1);
    assert_eq!(ram.read_ram(0), 1);
    ram.set_ram(0x101, 1234);
    assert_eq!(ram.read_ram(0x101), 1234);
    ram.set_ram(0x100, 5432);
    ram.write_ram(0x100, 1);
    assert_eq!(ram.read_ram(0x100), 5432);
    ram.set_ram(0x200, 0xabc);
    assert_eq!(ram.read_ram(0x200), 0);
    ram.write_ram(0x200, 0xdef);
    assert_eq!(ram.read_ram(0x200), 0);
    assert_eq!(ram.get_ram_region(0x200, 1), &[0xabc]);

    // set_ram
    ram.set_ram(0, 1);
    assert_eq!(ram.read_ram(0), 1);
    ram.set_ram(0xff, 0xbeef);
    assert_eq!(ram.read_ram(0xff), 0xbeef);

    // set_ram_region
    let arr = [1, 2, 3, 4, 5, 6, 7, 8, 9, 10];
    ram.set_ram_region(0, &arr).unwrap();
    assert_eq!(ram.get_ram_region(0, arr.len()), &arr);

    // callbacks: the write is recorded for the callback of its address
    ram.register_callback(0x99);
    ram.write_ram(0x99, 0x1234);
    assert_eq!(ram.take_events(), vec![(0x99, 0x1234)]);
}

#[test]
fn test_mem() {
    let mut mem = MemoryUnit::new(0, 0, 0, 0, 0, 0, vec![0; 65536], vec![]).unwrap();

    mem.set_reg(Register::A, 0x1234);
    assert_eq!(mem.get_reg(Register::A), 0x1234);

    assert_eq!(mem.get_reg(Register::NoReg), 0);
    mem.set_ram(0x1234, 0xabc);
    assert_eq!(mem.get_reg(Register::MA), 0xabc);

    mem.set_reg(Register::MA, 0xdef);
    assert_eq!(mem.get_reg(Register::MA), 0xdef);
    assert_eq!(mem.get_ram_region(0x1234, 1), &[0xdef]);

    mem.set_reg(Register::D, 0x1234);
    assert_eq!(mem.get_regs(), (0x1234, 0x1234, 0, 0, 0, 0));
}

#[test]
fn test_rom() {
    let rvs = vec![1, 2, 3, 4, 5, 6, 7, 8, 9, 10];
    let rom = Rom::from_iter(rvs.clone());
    assert_eq!(rom.get_address(0), Some(1));

    assert_eq!(rom.get_rom_region(2, 0xff), &rvs[2..]);
}

#[test]
fn test_pc() {
    let mut pc = Pc::new(0);
    pc.inc();
    pc.inc();
    assert_eq!(pc.get_val(), 2);

    pc.set(0xffff);
    pc.inc();
    assert_eq!(pc.get_val(), 0);
}

#[test]
fn test_instruction() {
    match Instruction::from_u16(0b1000000000000010) {
        Instruction::Alu(_) => {
            panic!("incorrect data instruction decoding")
        }
        Instruction::Data(val) => {
            assert_eq!(val, 2)
        }
    }

    match Instruction::from_u16(0b0000000000000010) {
        Instruction::Alu(inst) => {
            assert_eq!(inst.get_eq(), true);
        }
        Instruction::Data(_) => {
            panic!("incorrect alu instruction decoding")
        }
    }
}

fn counting_ram() -> Vec<u16> {
    (0..RAM_LEN).map(|i| i as u16).collect()
}

#[test]
fn test_vm_description() {
    let vm_desc = VmDescription {
        pc: 0x123,
        rom: vec![0x1234, 0x5678],
        mem: counting_ram(),
        rom_mappings: vec![(0x123, 0x456, 0x789)],
        regs: [1, 2, 3, 4, 5, 6],
        ..Default::default()
    };

    let serialized = vm_desc.serialize().unwrap();
    let deserialized = VmDescription::deserialize(&serialized).unwrap();

    assert_eq!(deserialized.pc, 0x123);
    assert_eq!(deserialized.rom, vec![0x1234, 0x5678]);
    assert_eq!(deserialized.mem.as_slice(), counting_ram().as_slice());
    assert_eq!(deserialized.rom_mappings, &[(0x123, 0x456, 0x789)]);
    assert_eq!(&deserialized.regs, &[1u16, 2, 3, 4, 5, 6]);
}

#[test]
fn test_vm() {
    let code = r"[macros]
[text]
A = 0x1234
D = add, 0, A
A = 0
*A = add, 0, D
A = 0x512
JMP
[consts 0x100]";

    let vm_desc = assembler::run(code).unwrap();

    let mut vm = Vm::new(vm_desc).unwrap();
    for _ in 0..6 {
        vm.cycle().unwrap();
    }
    assert_eq!(vm.get_reg(Register::A), 0x512);
    assert_eq!(vm.get_reg(Register::D), 0x1234);
    assert_eq!(vm.get_pc(), 0x512);
    assert_eq!(vm.get_ram_region(0x0, 2), &[0x1234, 0x0]);
    assert!(matches!(
        vm.cycle(),
        Err(BError::ExecutionHaltedError { .. })
    ));
}
