//! Ring-0 driver clients used for sensor access: raw ISA port I/O through
//! a WinRing0-compatible driver and MSR/SMN reads through a PawnIO module.
//!
//! Both drivers exist on Windows only; on every other platform opening
//! them fails with a fixed message and reads yield nothing. The request
//! and response layouts of their control calls are encoded here. The
//! sensor code reads through the [`PortIo`] and [`RegisterIo`] traits, so
//! any client of such a driver can be handed to it.

use vstd::prelude::*;
use vstd::string::StringExecFns;
use vstd::string::StringSliceAdditionalSpecFns;

verus! {

/// Raw byte-wide port I/O.
pub trait PortIo {
    /// Whether a read of `port` made right after `writes` (each a port and
    /// the byte written to it, in order: the register selection that
    /// precedes the read) can give `v`: what the hardware behind this driver
    /// may answer once those registers are selected (`None`: the read
    /// failed). Unless a driver says more, any answer is possible.
    open spec fn answers(&self, writes: Seq<(u16, u8)>, port: u16, v: Option<u8>) -> bool {
        true
    }

    /// Writes each `(port, byte)` of `writes` in order, then reads one byte
    /// from `port`; `None` when the read failed.
    fn read_after(&self, writes: &[(u16, u8)], port: u16) -> (r: Option<u8>)
        ensures
            self.answers(writes@, port, r),
    ;

    /// Writes one byte to an I/O port (failures are ignored).
    fn write_io_byte(&self, port: u16, val: u8);

    /// Gives the hardware time to latch a just-selected register.
    fn settle(&self);
}

/// WinRing0 (OLS) port I/O client.
pub struct WinRing0;

impl WinRing0 {
    /// Opens the driver; always fails off Windows.
    pub fn open() -> (r: Result<Self, String>)
        ensures
            r matches Err(e) && e@ == "WinRing0 is Windows-only"@,
    {
        Err(String::from_str("WinRing0 is Windows-only"))
    }

    /// Port read; nothing can be read off Windows.
    pub fn read_io_byte(&self, port: u16) -> (r: Option<u8>)
        ensures
            r is None,
    {
        None
    }

    /// Port write; a no-op off Windows.
    pub fn write_io_byte(&self, port: u16, val: u8) {
    }
}

impl PortIo for WinRing0 {
    /// Off Windows every read fails.
    open spec fn answers(&self, writes: Seq<(u16, u8)>, port: u16, v: Option<u8>) -> bool {
        v is None
    }

    fn read_after(&self, writes: &[(u16, u8)], port: u16) -> (r: Option<u8>)
        ensures
            r is None,
    {
        let mut k: usize = 0;
        while k < writes.len()
            invariant
                k <= writes.len(),
            decreases writes.len() - k,
        {
            let (p, b) = writes[k];
            WinRing0::write_io_byte(self, p, b);
            k = k + 1;
        }
        WinRing0::read_io_byte(self, port)
    }

    fn write_io_byte(&self, port: u16, val: u8) {
        WinRing0::write_io_byte(self, port, val)
    }

    fn settle(&self) {
    }
}

/// `CTL_CODE(40000, 0x833, METHOD_BUFFERED, FILE_READ_ACCESS)`.
pub const IOCTL_READ_IO_PORT_BYTE: u32 = 0x9C40_60CC;

/// `CTL_CODE(40000, 0x836, METHOD_BUFFERED, FILE_WRITE_ACCESS)`.
pub const IOCTL_WRITE_IO_PORT_BYTE: u32 = 0x9C40_A0D8;

/// Byte `k` (0 = least significant) of `v`.
pub open spec fn byte_of(v: int, k: int) -> u8 {
    ((v / pow256(k)) % 256) as u8
}

/// `256^k`.
pub open spec fn pow256(k: int) -> int
    decreases k,
{
    if k <= 0 { 1 } else { 256 * pow256(k - 1) }
}

/// Input of the WinRing0 port-read call: the port as a little-endian `u32`.
pub fn read_port_request(port: u16) -> (b: [u8; 4])
    ensures
        b@ == seq![byte_of(port as int, 0), byte_of(port as int, 1), 0u8, 0u8],
{
    assert(pow256(1) == 256) by {
        reveal_with_fuel(pow256, 2);
    }
    assert(port & 0xFF == port % 256) by (bit_vector);
    assert(port >> 8u16 == port / 256) by (bit_vector);
    [(port & 0xFF) as u8, (port >> 8u16) as u8, 0, 0]
}

/// Input of the WinRing0 port-write call: the port as a little-endian
/// `u32`, then the value, then three bytes of padding.
pub fn write_port_request(port: u16, val: u8) -> (b: [u8; 8])
    ensures
        b@ == seq![byte_of(port as int, 0), byte_of(port as int, 1), 0u8, 0u8, val, 0u8, 0u8, 0u8],
{
    assert(pow256(1) == 256) by {
        reveal_with_fuel(pow256, 2);
    }
    assert(port & 0xFF == port % 256) by (bit_vector);
    assert(port >> 8u16 == port / 256) by (bit_vector);
    [(port & 0xFF) as u8, (port >> 8u16) as u8, 0, 0, val, 0, 0, 0]
}

/// PawnIO kernel-driver client (pawn module host).
pub struct PawnIo;

/// Length of the function-name field of a PawnIO call.
pub const FN_NAME_LEN: usize = 32;

impl PawnIo {
    /// Opens the driver and uploads a module; always fails off Windows.
    pub fn load_module(module: &[u8]) -> (r: Result<Self, String>)
        ensures
            r matches Err(e) && e@ == "PawnIO is Windows-only"@,
    {
        Err(String::from_str("PawnIO is Windows-only"))
    }

    /// Calls an exported module function; always fails off Windows.
    pub fn execute(&self, name: &str, args: &[i64], out_len: usize) -> (r: Result<Vec<i64>, String>)
        ensures
            r matches Err(e) && e@ == "PawnIO is Windows-only"@,
    {
        Err(String::from_str("PawnIO is Windows-only"))
    }

    /// `ioctl_read_msr(index)`: `eax | edx << 32`; `None` off Windows.
    pub fn read_msr(&self, index: u32) -> (r: Option<u64>)
        ensures
            r is None,
    {
        match self.execute("ioctl_read_msr", &[index as i64], 1) {
            Ok(out) => msr_from_output(&out),
            Err(_) => None,
        }
    }

    /// `ioctl_read_smn(offset)` (AMD data fabric); `None` off Windows.
    pub fn read_smn(&self, offset: u32) -> (r: Option<u32>)
        ensures
            r is None,
    {
        match self.execute("ioctl_read_smn", &[offset as i64], 1) {
            Ok(out) => smn_from_output(&out),
            Err(_) => None,
        }
    }
}

/// Model-specific (MSR) and AMD system-management-network (SMN) register
/// reads, through whatever driver gives access to them.
pub trait RegisterIo {
    /// Whether reading MSR `index` can give `v` (`None`: the read failed).
    /// Unless a driver says more, any answer is possible.
    open spec fn msr_answers(&self, index: u32, v: Option<u64>) -> bool {
        true
    }

    /// Whether reading SMN address `offset` can give `v` (`None`: the read
    /// failed). Unless a driver says more, any answer is possible.
    open spec fn smn_answers(&self, offset: u32, v: Option<u32>) -> bool {
        true
    }

    /// Reads MSR `index`.
    fn read_msr(&self, index: u32) -> (r: Option<u64>)
        ensures
            self.msr_answers(index, r),
    ;

    /// Reads SMN address `offset`.
    fn read_smn(&self, offset: u32) -> (r: Option<u32>)
        ensures
            self.smn_answers(offset, r),
    ;
}

impl RegisterIo for PawnIo {
    /// Off Windows every read fails.
    open spec fn msr_answers(&self, index: u32, v: Option<u64>) -> bool {
        v is None
    }

    /// Off Windows every read fails.
    open spec fn smn_answers(&self, offset: u32, v: Option<u32>) -> bool {
        v is None
    }

    fn read_msr(&self, index: u32) -> (r: Option<u64>) {
        PawnIo::read_msr(self, index)
    }

    fn read_smn(&self, offset: u32) -> (r: Option<u32>) {
        PawnIo::read_smn(self, offset)
    }
}

/// The MSR value of an `ioctl_read_msr` result: its first word.
pub fn msr_from_output(out: &[i64]) -> (r: Option<u64>)
    ensures
        r == (if out@.len() > 0 { Some(out@[0] as u64) } else { None::<u64> }),
{
    if out.len() > 0 {
        Some(out[0] as u64)
    } else {
        None
    }
}

/// The SMN register of an `ioctl_read_smn` result: the low 32 bits of its
/// first word.
pub fn smn_from_output(out: &[i64]) -> (r: Option<u32>)
    ensures
        r == (if out@.len() > 0 { Some(((out@[0] as u64) % 0x1_0000_0000) as u32) } else { None::<u32> }),
{
    if out.len() > 0 {
        let v = out[0] as u64;
        assert(v & 0xFFFF_FFFFu64 == v % 0x1_0000_0000) by (bit_vector);
        Some((v & 0xFFFF_FFFFu64) as u32)
    } else {
        None
    }
}

/// Input of a PawnIO call: the function name (at most 31 bytes of it),
/// zero-padded to 32 bytes, then each argument as a little-endian `i64`.
pub fn execute_request(name: &str, args: &[i64]) -> (input: Vec<u8>)
    requires
        FN_NAME_LEN + args@.len() * 8 <= usize::MAX,
    ensures
        input@.len() == FN_NAME_LEN + args@.len() * 8,
        forall|k: int| 0 <= k < FN_NAME_LEN ==> #[trigger] input@[k] == (
            if k < name.spec_bytes().len() && k < FN_NAME_LEN - 1 { name.spec_bytes()[k] } else { 0u8 }),
        forall|i: int, k: int| 0 <= i < args@.len() && 0 <= k < 8 ==>
            #[trigger] input@[FN_NAME_LEN + i * 8 + k] == byte_of(args@[i] as u64 as int, k),
{
    let bytes = name.as_bytes();
    let n = if bytes.len() < FN_NAME_LEN - 1 { bytes.len() } else { FN_NAME_LEN - 1 };
    let mut input: Vec<u8> = Vec::new();
    let mut k: usize = 0;
    while k < FN_NAME_LEN
        invariant
            k <= FN_NAME_LEN,
            n <= FN_NAME_LEN - 1,
            n <= bytes@.len(),
            n == (if bytes@.len() < FN_NAME_LEN - 1 { bytes@.len() as int } else { FN_NAME_LEN - 1 }),
            bytes@ == name.spec_bytes(),
            input@.len() == k,
            forall|j: int| 0 <= j < k ==> #[trigger] input@[j] == (
                if j < name.spec_bytes().len() && j < FN_NAME_LEN - 1 { name.spec_bytes()[j] } else { 0u8 }),
        decreases FN_NAME_LEN - k,
    {
        if k < n {
            input.push(bytes[k]);
        } else {
            input.push(0);
        }
        k = k + 1;
    }
    let mut i: usize = 0;
    while i < args.len()
        invariant
            FN_NAME_LEN + args@.len() * 8 <= usize::MAX,
            i <= args@.len(),
            input@.len() == FN_NAME_LEN + i * 8,
            forall|j: int| 0 <= j < FN_NAME_LEN ==> #[trigger] input@[j] == (
                if j < name.spec_bytes().len() && j < FN_NAME_LEN - 1 { name.spec_bytes()[j] } else { 0u8 }),
            forall|a: int, b: int| 0 <= a < i && 0 <= b < 8 ==>
                #[trigger] input@[FN_NAME_LEN + a * 8 + b] == byte_of(args@[a] as u64 as int, b),
        decreases args@.len() - i,
    {
        let v = args[i] as u64;
        let ghost before = input@;
        let mut b: usize = 0;
        let mut rest = v;
        while b < 8
            invariant
                b <= 8,
                input@.len() == FN_NAME_LEN + i * 8 + b,
                input@.subrange(0, FN_NAME_LEN + i * 8) == before,
                before.len() == FN_NAME_LEN + i * 8,
                rest as int == (v as int) / pow256(b as int),
                forall|c: int| 0 <= c < b ==> #[trigger] input@[FN_NAME_LEN + i * 8 + c] == byte_of(v as int, c),
            decreases 8 - b,
        {
            input.push((rest & 0xFF) as u8);
            assert(rest & 0xFF == rest % 256) by (bit_vector);
            assert(rest >> 8u64 == rest / 256) by (bit_vector);
            proof {
                assert(pow256(b as int + 1) == 256 * pow256(b as int));
                assert((v as int) / pow256(b as int + 1) == ((v as int) / pow256(b as int)) / 256) by {
                    assert(pow256(b as int) > 0) by {
                        lemma_pow256_pos(b as int);
                    }
                    vstd::arithmetic::div_mod::lemma_div_denominator(v as int, pow256(b as int), 256);
                }
            }
            rest = rest >> 8u64;
            b = b + 1;
        }
        assert forall|a: int, c: int| 0 <= a < i + 1 && 0 <= c < 8 implies
            #[trigger] input@[FN_NAME_LEN + a * 8 + c] == byte_of(args@[a] as u64 as int, c) by {
            if a < i {
                assert(input@[FN_NAME_LEN + a * 8 + c] == before[FN_NAME_LEN + a * 8 + c]);
            }
        }
        assert forall|j: int| 0 <= j < FN_NAME_LEN implies #[trigger] input@[j] == (
            if j < name.spec_bytes().len() && j < FN_NAME_LEN - 1 { name.spec_bytes()[j] } else { 0u8 }) by {
            assert(input@[j] == before[j]);
        }
        i = i + 1;
    }
    input
}

/// `256^k` is positive.
pub proof fn lemma_pow256_pos(k: int)
    ensures
        pow256(k) > 0,
    decreases k,
{
    if k > 0 {
        lemma_pow256_pos(k - 1);
    }
}

} // verus!
