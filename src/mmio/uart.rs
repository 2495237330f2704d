//! A byte-oriented serial device with bounded input and output queues.
use vstd::prelude::*;

use std::collections::VecDeque;

use crate::util::BError;
use crate::vm::{mapped_ram, setup_ok, setup_regions, Vm, VmDescription};

verus! {

/// Input flag: the input queue overflowed.
pub const IO: u16 = 1;

/// Input flag: data is available.
pub const DA: u16 = 2;

/// Input flag: the output queue is ready.
pub const OR: u16 = 4;

/// Output flag: a byte was written.
pub const OW: u16 = 1;

/// Output flag: a byte was read.
pub const IR: u16 = 2;

/// Output flag: reset the device.
pub const RU: u16 = 4;

pub const INPUT_BUF_LEN: usize = 0xff;

pub const OUTPUT_BUF_LEN: usize = 0xff;

/// Baud rate register.
pub const U_BAUD: u16 = 0x6000;

/// Output data register.
pub const U_OUT: u16 = 0x6001;

/// Input data register.
pub const U_IN: u16 = 0x6002;

/// Input flags register (device to machine).
pub const U_IFL: u16 = 0x6003;

/// Output flags register (machine to device).
pub const U_OFL: u16 = 0x6004;

/// The input flags after `OW` queued a byte and the output queue holds `n` bytes before trimming.
pub open spec fn flags_after_write(f: u16, n: int) -> u16 {
    if n > OUTPUT_BUF_LEN {
        f
    } else if n == OUTPUT_BUF_LEN {
        f & !OR
    } else {
        f | OR
    }
}

/// The input flags after `IR` took a byte and `remaining` bytes are left.
pub open spec fn flags_after_read(f: u16, remaining: int) -> u16 {
    (if remaining > 0 {
        f | DA
    } else {
        f & !DA
    }) & !IO
}

/// The device: input and output queues (newest byte first), the byte last written, the byte
/// last read and the input flags.
#[derive(Debug)]
pub struct Uart {
    input: VecDeque<u8>,
    output: VecDeque<u8>,
    write_reg: u8,
    read_reg: u8,
    in_flags: u16,
}

impl Uart {
    pub closed spec fn input_spec(&self) -> Seq<u8> {
        self.input@
    }

    pub closed spec fn output_spec(&self) -> Seq<u8> {
        self.output@
    }

    pub closed spec fn write_reg_spec(&self) -> u8 {
        self.write_reg
    }

    pub closed spec fn read_reg_spec(&self) -> u8 {
        self.read_reg
    }

    pub closed spec fn flags_spec(&self) -> u16 {
        self.in_flags
    }

    pub open spec fn wf(&self) -> bool {
        self.input_spec().len() <= INPUT_BUF_LEN && self.output_spec().len() <= OUTPUT_BUF_LEN
    }

    /// A device after a reset: empty queues, zero registers, flags `OR`.
    pub open spec fn is_reset(&self) -> bool {
        &&& self.input_spec() == Seq::<u8>::empty()
        &&& self.output_spec() == Seq::<u8>::empty()
        &&& self.write_reg_spec() == 0
        &&& self.read_reg_spec() == 0
        &&& self.flags_spec() == OR
    }

    /// A device in its reset state.
    pub fn new() -> (r: Self)
        ensures
            r.wf(),
            r.is_reset(),
    {
        Uart { input: VecDeque::new(), output: VecDeque::new(), write_reg: 0, read_reg: 0, in_flags: OR }
    }

    /// `new` is this device after the output data register was written with `reg_content`.
    pub open spec fn write_reg_effect(&self, new: &Uart, reg_content: u16) -> bool {
        &&& new.write_reg_spec() == (reg_content % 256) as u8
        &&& new.input_spec() == self.input_spec()
        &&& new.output_spec() == self.output_spec()
        &&& new.read_reg_spec() == self.read_reg_spec()
        &&& new.flags_spec() == self.flags_spec()
    }

    /// `new` is this device after the output flags register was written with `reg_content`.
    pub open spec fn output_flags_effect(&self, new: &Uart, reg_content: u16) -> bool {
        &&& reg_content & RU != 0 ==> new.is_reset()
        &&& reg_content & RU == 0 && reg_content & OW != 0 ==> new.output_spec() == (seq![
            self.write_reg_spec(),
        ] + self.output_spec()).subrange(
            0,
            if self.output_spec().len() + 1 > OUTPUT_BUF_LEN {
                OUTPUT_BUF_LEN as int
            } else {
                self.output_spec().len() + 1int
            },
        )
        &&& reg_content & RU == 0 && reg_content & OW == 0 ==> new.output_spec() == self.output_spec()
        &&& reg_content & RU == 0 && reg_content & IR != 0 ==> {
            &&& new.input_spec() == if self.input_spec().len() > 0 {
                self.input_spec().drop_last()
            } else {
                self.input_spec()
            }
            &&& new.read_reg_spec() == if self.input_spec().len() > 0 {
                self.input_spec().last()
            } else {
                0u8
            }
        }
        &&& reg_content & RU == 0 ==> new.flags_spec() == {
            let f1 = if reg_content & OW != 0 {
                flags_after_write(self.flags_spec(), self.output_spec().len() + 1int)
            } else {
                self.flags_spec()
            };
            if reg_content & IR != 0 {
                flags_after_read(f1, new.input_spec().len() as int)
            } else {
                f1
            }
        }
        &&& reg_content & RU == 0 && reg_content & IR == 0 ==> {
            &&& new.input_spec() == self.input_spec()
            &&& new.read_reg_spec() == self.read_reg_spec()
        }
        &&& reg_content & RU == 0 ==> new.write_reg_spec() == self.write_reg_spec()
    }

    /// `new` is this device after `byte` was put into the input queue: the queue keeps its
    /// newest `INPUT_BUF_LEN` bytes, `DA` is set, and `IO` is set when the queue is full.
    pub open spec fn put_input_effect(&self, new: &Uart, byte: u8) -> bool {
        &&& new.input_spec() == (seq![byte] + self.input_spec()).subrange(
            0,
            if self.input_spec().len() + 1 > INPUT_BUF_LEN {
                INPUT_BUF_LEN as int
            } else {
                self.input_spec().len() + 1int
            },
        )
        &&& new.flags_spec() == if self.input_spec().len() + 1 >= INPUT_BUF_LEN {
            (self.flags_spec() | DA) | IO
        } else {
            self.flags_spec() | DA
        }
        &&& new.output_spec() == self.output_spec()
        &&& new.read_reg_spec() == self.read_reg_spec()
        &&& new.write_reg_spec() == self.write_reg_spec()
    }

    /// `new` is this device after the machine wrote `value` at `address`.
    pub open spec fn on_write_effect(&self, new: &Uart, address: u16, value: u16) -> bool {
        if address == U_OUT {
            self.write_reg_effect(new, value)
        } else if address == U_OFL {
            self.output_flags_effect(new, value)
        } else {
            *new == *self
        }
    }

    /// `new` is this device after the oldest output byte was taken, `r` being that byte.
    pub open spec fn take_output_effect(&self, new: &Uart, r: Option<u8>) -> bool {
        &&& self.output_spec().len() == 0 ==> r is None && new.output_spec() == self.output_spec()
        &&& self.output_spec().len() > 0 ==> r == Some(self.output_spec().last())
            && new.output_spec() == self.output_spec().drop_last()
        &&& new.input_spec() == self.input_spec()
        &&& new.read_reg_spec() == self.read_reg_spec()
        &&& new.write_reg_spec() == self.write_reg_spec()
        &&& new.flags_spec() == self.flags_spec()
    }

    /// The output data register was written: keeps its low byte.
    pub fn write_reg_changed(&mut self, reg_content: u16)
        ensures
            old(self).write_reg_effect(&*final(self), reg_content),
    {
        self.write_reg = (reg_content % 256) as u8;
    }

    /// The output flags register was written: `OW` queues the written byte, `IR` takes the
    /// oldest input byte, `RU` resets the device, in that order.
    #[verifier::rlimit(60)]
    pub fn output_flags_changed(&mut self, reg_content: u16)
        requires
            old(self).wf(),
        ensures
            final(self).wf(),
            old(self).output_flags_effect(&*final(self), reg_content),
            reg_content & RU == 0 && reg_content & IR != 0 ==> final(self).flags_spec() & IO == 0 && (
            final(self).flags_spec() & DA != 0) == (final(self).input_spec().len() > 0),
    {
        if reg_content & OW != 0 {
            let w = self.write_reg;
            self.output.push_front(w);
            let out_len = self.output.len();
            if out_len > OUTPUT_BUF_LEN {
                self.output.pop_back();
            } else if out_len == OUTPUT_BUF_LEN {
                self.in_flags = self.in_flags & !OR;
            } else {
                self.in_flags = self.in_flags | OR;
            }
        }
        if reg_content & IR != 0 {
            let ghost before = self.input@;
            self.read_reg = match self.input.pop_back() {
                Some(b) => b,
                None => 0,
            };
            proof {
                if before.len() > 0 {
                    assert(self.input@ =~= before.drop_last());
                }
            }
            let f0 = self.in_flags;
            let f1 = if self.input.len() > 0 {
                f0 | DA
            } else {
                f0 & !DA
            };
            self.in_flags = f1 & !IO;
            proof {
                assert((f0 | DA) & !IO & DA != 0) by (bit_vector);
                assert((f0 & !DA) & !IO & DA == 0) by (bit_vector);
                assert(f1 & !IO & IO == 0) by (bit_vector);
            }
        }
        if reg_content & RU != 0 {
            self.input = VecDeque::new();
            self.output = VecDeque::new();
            self.write_reg = 0;
            self.read_reg = 0;
            self.in_flags = OR;
        }
        proof {
            let o = *old(self);
            let n = *self;
            assert(reg_content & RU != 0 ==> n.is_reset());
            assert(reg_content & RU == 0 && reg_content & OW == 0 ==> n.output_spec() == o.output_spec());
            assert(reg_content & RU == 0 && reg_content & IR == 0 ==> n.input_spec() == o.input_spec());
            assert(reg_content & RU == 0 ==> n.write_reg_spec() == o.write_reg_spec());
            assert(reg_content & RU == 0 && reg_content & OW != 0 ==> n.output_spec() == (seq![
                o.write_reg_spec(),
            ] + o.output_spec()).subrange(
                0,
                if o.output_spec().len() + 1 > OUTPUT_BUF_LEN {
                    OUTPUT_BUF_LEN as int
                } else {
                    o.output_spec().len() + 1int
                },
            ));
            assert(reg_content & RU == 0 && reg_content & IR != 0 ==> n.input_spec() == if o.input_spec().len() > 0 {
                o.input_spec().drop_last()
            } else {
                o.input_spec()
            });
            assert(reg_content & RU == 0 ==> n.flags_spec() == {
                let f1 = if reg_content & OW != 0 {
                    flags_after_write(o.flags_spec(), o.output_spec().len() + 1int)
                } else {
                    o.flags_spec()
                };
                if reg_content & IR != 0 {
                    flags_after_read(f1, n.input_spec().len() as int)
                } else {
                    f1
                }
            });
        }
    }

    /// Puts a byte into the input queue; a full queue drops its oldest byte and sets `IO`.
    pub fn put_input(&mut self, input_byte: u8)
        requires
            old(self).wf(),
        ensures
            final(self).wf(),
            final(self).input_spec() == (seq![input_byte] + old(self).input_spec()).subrange(
                0,
                if old(self).input_spec().len() + 1 > INPUT_BUF_LEN {
                    INPUT_BUF_LEN as int
                } else {
                    old(self).input_spec().len() + 1int
                },
            ),
            final(self).flags_spec() & DA != 0,
            old(self).put_input_effect(&*final(self), input_byte),
    {
        self.input.push_front(input_byte);
        let f0 = self.in_flags;
        let f = f0 | DA;
        proof {
            assert((f0 | DA) & DA != 0) by (bit_vector);
            assert(f & DA != 0 ==> (f | IO) & DA != 0) by (bit_vector);
        }
        self.in_flags = f;
        let inp_len = self.input.len();
        if inp_len > INPUT_BUF_LEN {
            self.input.pop_back();
        }
        if inp_len >= INPUT_BUF_LEN {
            self.in_flags = f | IO;
        }
    }

    /// The input flags.
    pub fn get_in_flags(&self) -> (r: u16)
        ensures
            r == self.flags_spec(),
    {
        self.in_flags
    }

    /// The input data register: the byte last read.
    pub fn get_input(&self) -> (r: u16)
        ensures
            r == self.read_reg_spec() as u16,
    {
        self.read_reg as u16
    }

    /// Takes the oldest byte of the output queue.
    pub fn get_output(&mut self) -> (r: Option<u8>)
        requires
            old(self).wf(),
        ensures
            final(self).wf(),
            old(self).take_output_effect(&*final(self), r),
    {
        self.output.pop_back()
    }

    /// Runs the callback of a write by the machine: `U_OUT` and `U_OFL` reach the device.
    pub fn on_write(&mut self, address: u16, value: u16)
        requires
            old(self).wf(),
        ensures
            final(self).wf(),
            old(self).on_write_effect(&*final(self), address, value),
    {
        if address == U_OUT {
            self.write_reg_changed(value);
        } else if address == U_OFL {
            self.output_flags_changed(value);
        }
    }
}

impl Default for Uart {
    fn default() -> (r: Self)
        ensures
            r.wf(),
            r.is_reset(),
    {
        Uart::new()
    }
}

/// Mounts a UART on a description and builds the machine: `U_IN` becomes read-only, writes
/// to `U_OUT` and `U_OFL` get callbacks and `U_IFL` starts as `OR`. Whoever drives the machine
/// hands the recorded writes to `Uart::on_write` and copies the input byte and flags back to
/// `U_IN` and `U_IFL` after each cycle.
pub fn connect_uart(vm_desc: VmDescription) -> (r: Result<(Vm, Uart), BError>)
    requires
        vm_desc.wf(),
    ensures
        r is Ok <==> setup_ok(
            vm_desc.rom@.len() as int,
            vm_desc.rom_mappings@,
            vm_desc.rom_blocks@.push((U_IN, 1u16)),
        ),
        r matches Err(e) ==> e is OutOfBoundsError || e is MapError,
        r matches Ok((vm, uart)) ==> {
            &&& vm.wf()
            &&& uart.wf()
            &&& uart.is_reset()
            &&& vm.pc_spec() == vm_desc.pc
            &&& vm.rom_spec() == vm_desc.rom@
            &&& vm.mem_spec().regs() == vm_desc.regs@
            &&& vm.mem_spec().ram_spec().cells() == mapped_ram(
                vm_desc.mem@.update(U_IFL as int, OR),
                vm_desc.rom@,
                vm_desc.rom_mappings@,
            )
            &&& vm.mem_spec().ram_spec().regions() == setup_regions(
                vm_desc.rom_mappings@,
                vm_desc.rom_blocks@.push((U_IN, 1u16)),
            )
            &&& vm.mem_spec().ram_spec().watched().contains(U_OUT)
            &&& vm.mem_spec().ram_spec().watched().contains(U_OFL)
        },
{
    let uart = Uart::new();
    let mut d = vm_desc;
    d.rom_blocks.push((U_IN, 1));
    d.callbacks.push(U_OUT);
    d.callbacks.push(U_OFL);
    d.mem.set(U_IFL as usize, OR);
    proof {
        assert(d.callbacks@.contains(U_OUT)) by {
            assert(d.callbacks@[d.callbacks@.len() - 2] == U_OUT);
        }
        assert(d.callbacks@.contains(U_OFL)) by {
            assert(d.callbacks@[d.callbacks@.len() - 1] == U_OFL);
        }
    }
    let vm = Vm::new(d)?;
    Ok((vm, uart))
}

} // verus!
