//! Sensor decoding: CPU package temperature from the AMD SMN and Intel
//! DTS registers, CPUID signature fields, CPU fan selection from
//! tachometer readings, and the random source of the stub provider.

use vstd::prelude::*;
use crate::hwio::RegisterIo;
use vstd::string::StrSliceExecFns;
use vstd::string::StringExecFns;
use crate::config::{lemma_split_nonempty, split_on, split_string, strings_v};
use crate::text::{ascii_lowercase, has_prefix, lower_seq, parse_uint, parse_unsigned, push_char, starts_with, str_eq, trim, trim_spec};

verus! {

/// SMN address of `THM_TCON_CUR_TMP` (AMD Zen).
pub const SMN_THM_TCON_CUR_TMP: u32 = 0x0005_9800;

/// `IA32_THERM_STATUS`.
pub const MSR_THERM_STATUS: u32 = 0x19C;

/// `MSR_TEMPERATURE_TARGET` (TjMax in bits 16..24).
pub const MSR_TEMPERATURE_TARGET: u32 = 0x1A2;

/// Zen Tctl in millidegrees: 0.125 °C steps in bits 21..32, minus 49 °C
/// when the range-select bit 19 or both bits 16 and 17 are set, plus the
/// Tctl→Tdie offset.
pub open spec fn zen_millideg(raw: u32, offset_c: i32) -> int {
    let base = (raw / 0x20_0000) * 125;
    let adj = if (raw / 0x8_0000) % 2 == 1 || (raw / 0x1_0000) % 4 == 3 { 49000int } else { 0int };
    base - adj + offset_c * 1000
}

/// A Zen reading in millidegrees when it is plausible (strictly between
/// 0 and 125 °C).
pub fn zen_reading(raw: u32, offset_c: i32) -> (r: Option<i32>)
    ensures
        r is Some <==> 0 < zen_millideg(raw, offset_c) < 125000,
        r matches Some(m) ==> m == zen_millideg(raw, offset_c),
{
    assert({
        &&& raw >> 21 == raw / 0x20_0000
        &&& (raw >> 21) <= 2047
        &&& ((raw & 0x80000) != 0) == ((raw / 0x8_0000) % 2 == 1)
        &&& ((raw & 0x30000) == 0x30000) == ((raw / 0x1_0000) % 4 == 3)
    }) by (bit_vector);
    let base: i64 = ((raw >> 21) * 125) as i64;
    let flag = (raw & 0x80000) != 0 || (raw & 0x30000) == 0x30000;
    let m: i64 = base - (if flag { 49000 } else { 0 }) + offset_c as i64 * 1000;
    if m > 0 && m < 125000 {
        Some(m as i32)
    } else {
        None
    }
}

/// An Intel reading in whole degrees: TjMax (bits 16..24 of the target
/// register, 100 when unreadable or zero) minus the digital readout
/// (bits 16..23 of the status); `None` when the status is not valid
/// (bit 31 clear) or the result is not strictly between 0 and 125.
pub open spec fn intel_celsius(status: u32, target: Option<u64>) -> Option<int> {
    if (status / 0x8000_0000) % 2 == 0 {
        None
    } else {
        let tj: int = match target {
            Some(v) => if (v / 0x1_0000) % 256 > 0 { ((v / 0x1_0000) % 256) as int } else { 100 },
            None => 100,
        };
        let t = tj - (status / 0x1_0000) % 128;
        if 0 < t < 125 { Some(t) } else { None }
    }
}

/// The Zen decoding of a register read, `None` when the read failed or the
/// value is implausible.
pub open spec fn zen_opt(raw: Option<u32>, offset_c: i32) -> Option<i32> {
    match raw {
        Some(v) => if 0 < zen_millideg(v, offset_c) < 125000 {
            Some(zen_millideg(v, offset_c) as i32)
        } else {
            None
        },
        None => None,
    }
}

/// The Intel decoding of the status register read (low 32 bits) and the
/// target register read, in millidegrees; `None` when the status read
/// failed or the value is implausible.
pub open spec fn intel_opt(status: Option<u64>, target: Option<u64>) -> Option<i32> {
    match status {
        Some(st) => match intel_celsius((st % 0x1_0000_0000) as u32, target) {
            Some(t) => Some((t * 1000) as i32),
            None => None,
        },
        None => None,
    }
}

/// The Zen temperature in millidegrees from what the SMN read gave:
/// nothing when the read failed or the value is implausible.
pub fn zen_from_read(raw: Option<u32>, tdie_offset: i32) -> (r: Option<i32>)
    ensures
        r == zen_opt(raw, tdie_offset),
{
    match raw {
        Some(v) => zen_reading(v, tdie_offset),
        None => None,
    }
}

/// The Intel temperature in millidegrees from what the status and target
/// MSR reads gave: nothing when the status read failed, the reading is not
/// valid or it is implausible.
pub fn intel_from_read(status: Option<u64>, target: Option<u64>) -> (r: Option<i32>)
    ensures
        r == intel_opt(status, target),
{
    match status {
        Some(st) => {
            assert((st as u32) == (st % 0x1_0000_0000) as u32) by (bit_vector);
            match intel_reading(st as u32, target) {
                Some(t) => Some(t * 1000),
                None => None,
            }
        },
        None => None,
    }
}

/// Intel package temperature from the status and target registers.
pub fn intel_reading(status: u32, target: Option<u64>) -> (r: Option<i32>)
    ensures
        match (r, intel_celsius(status, target)) {
            (Some(a), Some(b)) => a == b,
            (None, None) => true,
            _ => false,
        },
{
    assert(((status & 0x8000_0000) == 0) == ((status / 0x8000_0000) % 2 == 0)) by (bit_vector);
    if status & 0x8000_0000 == 0 {
        return None;
    }
    let tj: i32 = match target {
        Some(v) => {
            let b = ((v >> 16) & 0xFF) as i32;
            assert(((v >> 16) & 0xFF) == (v / 0x1_0000) % 256) by (bit_vector);
            if b > 0 { b } else { 100 }
        },
        None => 100,
    };
    let digital = ((status >> 16) & 0x7F) as i32;
    assert(((status >> 16) & 0x7F) == (status / 0x1_0000) % 128) by (bit_vector);
    let t = tj - digital;
    if t > 0 && t < 125 {
        Some(t)
    } else {
        None
    }
}

/// `needle` occurs in `s`.
pub open spec fn contains_seq(s: Seq<char>, needle: Seq<char>) -> bool {
    exists|i: int| 0 <= i && i + needle.len() <= s.len() && #[trigger] s.subrange(i, i + needle.len()) == needle
}

/// Whether `needle` occurs in `s`.
pub fn contains(s: &str, needle: &str) -> (b: bool)
    ensures
        b == contains_seq(s@, needle@),
{
    let n = s.unicode_len();
    let m = needle.unicode_len();
    if m > n {
        return false;
    }
    if m == 0 {
        assert(s@.subrange(0, 0int + needle@.len()) =~= needle@);
        return true;
    }
    let mut i: usize = 0;
    while i <= n - m
        invariant
            1 <= m <= n,
            n == s@.len(),
            m == needle@.len(),
            i <= n - m + 1,
            forall|j: int| 0 <= j < i ==> #[trigger] s@.subrange(j, j + m) != needle@,
        decreases n - i,
    {
        if str_eq(s.substring_char(i, i + m), needle) {
            return true;
        }
        i = i + 1;
    }
    assert forall|j: int| 0 <= j && j + needle@.len() <= s@.len() implies #[trigger] s@.subrange(j, j + needle@.len())
        != needle@ by {
        assert(j < i);
    }
    false
}

/// Tctl→Tdie offset (°C) of the k10temp table for a CPU brand string.
pub open spec fn amd_offset_spec(brand: Seq<char>) -> i32 {
    if contains_seq(brand, "1600X"@) || contains_seq(brand, "1700X"@) || contains_seq(brand, "1800X"@) {
        -20i32
    } else if contains_seq(brand, "Threadripper 19"@) || contains_seq(brand, "Threadripper 29"@) {
        -27i32
    } else if contains_seq(brand, "2700X"@) {
        -10i32
    } else {
        0i32
    }
}

/// Tctl→Tdie offset in whole degrees for a CPU brand string.
pub fn amd_offset(brand: &str) -> (o: i32)
    ensures
        o == amd_offset_spec(brand@),
{
    if contains(brand, "1600X") || contains(brand, "1700X") || contains(brand, "1800X") {
        -20
    } else if contains(brand, "Threadripper 19") || contains(brand, "Threadripper 29") {
        -27
    } else if contains(brand, "2700X") {
        -10
    } else {
        0
    }
}

/// Family and model from CPUID leaf 1 `eax` (base plus extended fields).
pub open spec fn family_model_spec(eax: u32) -> (u32, u32) {
    (
        ((eax / 0x100) % 16 + (eax / 0x10_0000) % 256) as u32,
        ((eax / 16) % 16 + ((eax / 0x1000) % 256) / 16 * 16) as u32,
    )
}

/// CPU family and model of a CPUID leaf-1 signature.
pub fn cpuid_family_model(eax: u32) -> (fm: (u32, u32))
    ensures
        fm == family_model_spec(eax),
{
    assert({
        &&& ((eax >> 8) & 0xF) <= 15
        &&& ((eax >> 20) & 0xFF) <= 255
        &&& ((eax >> 8) & 0xF) == (eax / 0x100) % 16
        &&& ((eax >> 20) & 0xFF) == (eax / 0x10_0000) % 256
        &&& (((eax >> 4) & 0xF) | ((eax >> 12) & 0xF0)) == (eax / 16) % 16 + ((eax / 0x1000) % 256) / 16 * 16
    }) by (bit_vector);
    let family = ((eax >> 8) & 0xF) + ((eax >> 20) & 0xFF);
    let model = ((eax >> 4) & 0xF) | ((eax >> 12) & 0xF0);
    (family, model)
}

/// CPU vendor as identified by CPUID leaf 0.
#[derive(Debug, Clone, Copy, PartialEq, Eq, Structural)]
pub enum CpuVendor {
    Amd,
    Intel,
    Other,
}

/// Little-endian bytes of a register.
pub open spec fn le_bytes(r: u32) -> Seq<u8> {
    seq![(r % 256) as u8, ((r / 256) % 256) as u8, ((r / 0x1_0000) % 256) as u8, (r / 0x100_0000) as u8]
}

/// The twelve vendor bytes of CPUID leaf 0: `ebx`, `edx`, `ecx`.
pub open spec fn vendor_bytes(ebx: u32, edx: u32, ecx: u32) -> Seq<u8> {
    le_bytes(ebx) + le_bytes(edx) + le_bytes(ecx)
}

/// ASCII bytes of a text.
pub open spec fn ascii_bytes(s: Seq<char>) -> Seq<u8> {
    Seq::new(s.len(), |i: int| s[i] as u8)
}

fn push_le(out: &mut Vec<u8>, r: u32)
    ensures
        final(out)@ == old(out)@ + le_bytes(r),
{
    out.push((r & 0xFF) as u8);
    out.push(((r >> 8) & 0xFF) as u8);
    out.push(((r >> 16) & 0xFF) as u8);
    out.push((r >> 24) as u8);
    assert({
        &&& (r & 0xFF) as u8 == (r % 256) as u8
        &&& ((r >> 8) & 0xFF) as u8 == ((r / 256) % 256) as u8
        &&& ((r >> 16) & 0xFF) as u8 == ((r / 0x1_0000) % 256) as u8
        &&& (r >> 24) as u8 == (r / 0x100_0000) as u8
    }) by (bit_vector);
    assert(final(out)@ =~= old(out)@ + le_bytes(r));
}

proof fn lemma_prefix_step(a: Seq<u8>, b: Seq<u8>, i: int)
    requires
        0 <= i < a.len(),
        i < b.len(),
    ensures
        (a.subrange(0, i + 1) == b.subrange(0, i + 1)) == (a.subrange(0, i) == b.subrange(0, i) && a[i] == b[i]),
{
    if a.subrange(0, i + 1) == b.subrange(0, i + 1) {
        assert(a.subrange(0, i) =~= a.subrange(0, i + 1).subrange(0, i));
        assert(b.subrange(0, i) =~= b.subrange(0, i + 1).subrange(0, i));
        assert(a[i] == a.subrange(0, i + 1)[i]);
        assert(b[i] == b.subrange(0, i + 1)[i]);
    }
    if a.subrange(0, i) == b.subrange(0, i) && a[i] == b[i] {
        assert(a.subrange(0, i + 1) =~= a.subrange(0, i).push(a[i]));
        assert(b.subrange(0, i + 1) =~= b.subrange(0, i).push(b[i]));
    }
}

/// Vendor of a CPUID leaf-0 signature (`AuthenticAMD`, `GenuineIntel`).
pub fn cpuid_vendor(ebx: u32, edx: u32, ecx: u32) -> (v: CpuVendor)
    ensures
        vendor_bytes(ebx, edx, ecx) == ascii_bytes("AuthenticAMD"@) ==> v == CpuVendor::Amd,
        vendor_bytes(ebx, edx, ecx) == ascii_bytes("GenuineIntel"@) ==> v == CpuVendor::Intel,
        vendor_bytes(ebx, edx, ecx) != ascii_bytes("AuthenticAMD"@) && vendor_bytes(ebx, edx, ecx) != ascii_bytes(
            "GenuineIntel"@,
        ) ==> v == CpuVendor::Other,
{
    let mut b: Vec<u8> = Vec::new();
    push_le(&mut b, ebx);
    push_le(&mut b, edx);
    push_le(&mut b, ecx);
    assert(b@ =~= vendor_bytes(ebx, edx, ecx));
    proof {
        reveal_strlit("AuthenticAMD");
        reveal_strlit("GenuineIntel");
    }
    let amd: [u8; 12] = [65, 117, 116, 104, 101, 110, 116, 105, 99, 65, 77, 68];
    let intel: [u8; 12] = [71, 101, 110, 117, 105, 110, 101, 73, 110, 116, 101, 108];
    assert(amd@ =~= ascii_bytes("AuthenticAMD"@));
    assert(intel@ =~= ascii_bytes("GenuineIntel"@));
    let mut is_amd = true;
    let mut is_intel = true;
    assert(b@.subrange(0, 0) =~= amd@.subrange(0, 0));
    assert(b@.subrange(0, 0) =~= intel@.subrange(0, 0));
    let mut i: usize = 0;
    while i < 12
        invariant
            i <= 12,
            b@.len() == 12,
            is_amd == (b@.subrange(0, i as int) == amd@.subrange(0, i as int)),
            is_intel == (b@.subrange(0, i as int) == intel@.subrange(0, i as int)),
        decreases 12 - i,
    {
        proof {
            lemma_prefix_step(b@, amd@, i as int);
            lemma_prefix_step(b@, intel@, i as int);
        }
        is_amd = is_amd && b[i] == amd[i];
        is_intel = is_intel && b[i] == intel[i];
        i = i + 1;
    }
    assert(b@.subrange(0, 12) =~= b@);
    assert(amd@.subrange(0, 12) =~= amd@);
    assert(intel@.subrange(0, 12) =~= intel@);
    if is_amd {
        CpuVendor::Amd
    } else if is_intel {
        CpuVendor::Intel
    } else {
        CpuVendor::Other
    }
}

/// Driver module that reads the package temperature on a CPU: the AMD
/// SMN module for Zen families `0x17..=0x1A`, the Intel MSR module for
/// Intel; none otherwise.
pub fn temp_module_for(vendor: CpuVendor, family: u32) -> (p: Option<&'static str>)
    ensures
        vendor == CpuVendor::Amd && 0x17 <= family <= 0x1A ==> (p matches Some(s) && s@ == "res/drivers/AMDFamily17.bin"@),
        vendor == CpuVendor::Intel ==> (p matches Some(s) && s@ == "res/drivers/IntelMSR.bin"@),
        !(vendor == CpuVendor::Amd && 0x17 <= family <= 0x1A) && vendor != CpuVendor::Intel ==> p is None,
{
    match vendor {
        CpuVendor::Amd => if 0x17 <= family && family <= 0x1A { Some("res/drivers/AMDFamily17.bin") } else { None },
        CpuVendor::Intel => Some("res/drivers/IntelMSR.bin"),
        CpuVendor::Other => None,
    }
}

/// How the package temperature is read, through the register driver `D`.
pub enum TempSource<D> {
    Off,
    AmdZen { pawn: D, tdie_offset: i32 },
    Intel { pawn: D },
}

/// CPU package temperature reader.
pub struct CpuTemp<D> {
    pub kind: TempSource<D>,
}

impl<D: RegisterIo> CpuTemp<D> {
    /// Reader that never yields a temperature.
    pub fn off() -> (t: CpuTemp<D>)
        ensures
            t.kind is Off,
    {
        CpuTemp { kind: TempSource::Off }
    }

    /// Reader for a loaded driver module: kept only when a first read
    /// through it succeeds (SMN `THM_TCON_CUR_TMP` for AMD, with the Tdie
    /// offset of the brand; the status MSR for Intel).
    pub fn from_module(vendor: CpuVendor, pawn: D, brand: &str) -> (t: CpuTemp<D>)
        ensures
            vendor == CpuVendor::Other ==> t.kind is Off,
            vendor == CpuVendor::Amd ==> exists|v: Option<u32>|
                #[trigger] pawn.smn_answers(SMN_THM_TCON_CUR_TMP, v) && if v is Some {
                    t.kind == (TempSource::AmdZen { pawn, tdie_offset: amd_offset_spec(brand@) })
                } else {
                    t.kind is Off
                },
            vendor == CpuVendor::Intel ==> exists|v: Option<u64>|
                #[trigger] pawn.msr_answers(MSR_THERM_STATUS, v) && if v is Some {
                    t.kind == (TempSource::Intel { pawn })
                } else {
                    t.kind is Off
                },
    {
        match vendor {
            CpuVendor::Amd => {
                let probe = pawn.read_smn(SMN_THM_TCON_CUR_TMP);
                if probe.is_some() {
                    let off = amd_offset(brand);
                    CpuTemp { kind: TempSource::AmdZen { pawn, tdie_offset: off } }
                } else {
                    CpuTemp { kind: TempSource::Off }
                }
            },
            CpuVendor::Intel => {
                let probe = pawn.read_msr(MSR_THERM_STATUS);
                if probe.is_some() {
                    CpuTemp { kind: TempSource::Intel { pawn } }
                } else {
                    CpuTemp { kind: TempSource::Off }
                }
            },
            CpuVendor::Other => CpuTemp { kind: TempSource::Off },
        }
    }

    /// Package temperature in millidegrees Celsius, when a plausible
    /// reading is available: the decoding of what the driver reads now
    /// (AMD: the Zen formula with the reader's Tdie offset; Intel: the
    /// status and target decoding, the target read only after a status
    /// read succeeded). A failed read gives nothing.
    pub fn read_millicelsius(&self) -> (r: Option<i32>)
        ensures
            self.kind is Off ==> r is None,
            r matches Some(m) ==> 0 < m < 125000,
            self.kind matches TempSource::AmdZen { pawn, tdie_offset } ==> exists|raw: Option<u32>|
                #[trigger] pawn.smn_answers(SMN_THM_TCON_CUR_TMP, raw) && r == zen_opt(raw, tdie_offset),
            self.kind matches TempSource::Intel { pawn } ==> exists|status: Option<u64>, target: Option<u64>|
                #![trigger intel_opt(status, target)]
                pawn.msr_answers(MSR_THERM_STATUS, status) && (if status is Some {
                    pawn.msr_answers(MSR_TEMPERATURE_TARGET, target)
                } else {
                    target is None
                }) && r == intel_opt(status, target),
    {
        match &self.kind {
            TempSource::Off => None,
            TempSource::AmdZen { pawn, tdie_offset } => {
                let raw = pawn.read_smn(SMN_THM_TCON_CUR_TMP);
                let r = zen_from_read(raw, *tdie_offset);
                r
            },
            TempSource::Intel { pawn } => {
                let status = pawn.read_msr(MSR_THERM_STATUS);
                let target = match status {
                    Some(_) => pawn.read_msr(MSR_TEMPERATURE_TARGET),
                    None => None,
                };
                let r = intel_from_read(status, target);
                r
            },
        }
    }
}

/// Part of a fan selector after its last `/` (`nct6798/fan2` → `fan2`).
pub open spec fn selector_of(want: Seq<char>) -> Seq<char> {
    split_on(want, '/').last()
}

/// Fan number of a `fanN` selector.
pub open spec fn fan_number(sel: Seq<char>) -> Option<nat> {
    if has_prefix(sel, "fan"@) {
        match parse_unsigned(sel.subrange(3, sel.len() as int), 10) {
            Some(n) => if n <= usize::MAX { Some(n) } else { None },
            None => None,
        }
    } else {
        None
    }
}

/// First reading of a spinning fan.
pub open spec fn first_spinning(rpms: Seq<Option<u32>>) -> Option<u32>
    decreases rpms.len(),
{
    if rpms.len() == 0 {
        None
    } else {
        match rpms[0] {
            Some(v) => if v > 0 { Some(v) } else { first_spinning(rpms.drop_first()) },
            None => first_spinning(rpms.drop_first()),
        }
    }
}

/// `rpms[i]` is a turning fan.
pub open spec fn spins(rpms: Seq<Option<u32>>, i: int) -> bool {
    0 <= i < rpms.len() && (rpms[i] matches Some(v) && v > 0)
}

proof fn lemma_first_spinning(rpms: Seq<Option<u32>>)
    ensures
        first_spinning(rpms) matches Some(r) ==> exists|i: int|
            #[trigger] spins(rpms, i) && rpms[i] == Some(r) && forall|j: int| 0 <= j < i ==> !spins(rpms, j),
        first_spinning(rpms) is None ==> forall|i: int| !spins(rpms, i),
    decreases rpms.len(),
{
    if rpms.len() > 0 {
        let t = rpms.drop_first();
        lemma_first_spinning(t);
        assert forall|i: int| 0 <= i < t.len() implies t[i] == rpms[i + 1] by {}
        if !spins(rpms, 0) {
            if let Some(r) = first_spinning(t) {
                let i = choose|i: int| #[trigger] spins(t, i) && t[i] == Some(r) && forall|j: int| 0 <= j < i ==> !spins(t, j);
                assert(spins(rpms, i + 1));
                assert forall|j: int| 0 <= j < i + 1 implies !spins(rpms, j) by {
                    if j > 0 {
                        assert(!spins(t, j - 1));
                    }
                }
            } else {
                assert forall|i: int| !spins(rpms, i) by {
                    if 0 < i < rpms.len() {
                        assert(!spins(t, i - 1));
                    }
                }
            }
        } else {
            assert(spins(rpms, 0));
        }
    }
}

/// The CPU fan speed is always that of a turning fan of the list. With a
/// `fanN` selector it is fan `N`'s (fan 1 for `fan0`) when that fan turns,
/// and nothing otherwise; with any other selector it is the first turning
/// fan's, and nothing only when no fan turns.
pub proof fn lemma_pick_fan_turning(rpms: Seq<Option<u32>>, want: Seq<char>)
    ensures
        pick_fan_spec(rpms, want) matches Some(r) ==> r > 0 && exists|i: int| #[trigger] spins(rpms, i) && rpms[i]
            == Some(r),
        fan_number(selector_of(want)) matches Some(n) ==> {
            let i = if n == 0 { 0 } else { n - 1 };
            &&& spins(rpms, i) ==> pick_fan_spec(rpms, want) == rpms[i]
            &&& !spins(rpms, i) ==> pick_fan_spec(rpms, want) is None
        },
        fan_number(selector_of(want)) is None ==> {
            &&& pick_fan_spec(rpms, want) matches Some(r) ==> exists|i: int|
                #[trigger] spins(rpms, i) && rpms[i] == Some(r) && forall|j: int| 0 <= j < i ==> !spins(rpms, j)
            &&& pick_fan_spec(rpms, want) is None ==> forall|i: int| !spins(rpms, i)
        },
{
    lemma_first_spinning(rpms);
    if fan_number(selector_of(want)) is None {
        if spins(rpms, 0) {
            assert(forall|j: int| 0 <= j < 0 ==> !spins(rpms, j));
        }
    } else {
        let n = fan_number(selector_of(want)).unwrap();
        let i = if n == 0 { 0 } else { n - 1 };
        if spins(rpms, i as int) {
            assert(pick_fan_spec(rpms, want) == rpms[i as int]);
        }
    }
}

/// Speed of the CPU fan chosen by `want`: `fanN` (optionally after a chip
/// prefix) picks tachometer `N` (1-based, `fan0` is the first); anything
/// else picks fan 1 when it spins, else the first spinning fan. `None`
/// when the chosen fan is missing or stopped.
pub open spec fn pick_fan_spec(rpms: Seq<Option<u32>>, want: Seq<char>) -> Option<u32> {
    let pick = match fan_number(selector_of(want)) {
        Some(n) => {
            let i = if n == 0 { 0 } else { n - 1 };
            if i < rpms.len() { rpms[i as int] } else { None }
        },
        None => match (if rpms.len() > 0 { rpms[0] } else { None }) {
            Some(r) => if r > 0 { Some(r) } else { first_spinning(rpms) },
            None => first_spinning(rpms),
        },
    };
    match pick {
        Some(r) => if r > 0 { Some(r) } else { None },
        None => None,
    }
}

fn first_spinning_exec(rpms: &Vec<Option<u32>>) -> (r: Option<u32>)
    ensures
        r == first_spinning(rpms@),
{
    let mut i: usize = 0;
    assert(rpms@.subrange(0, rpms@.len() as int) =~= rpms@);
    while i < rpms.len()
        invariant
            i <= rpms@.len(),
            first_spinning(rpms@) == first_spinning(rpms@.subrange(i as int, rpms@.len() as int)),
        decreases rpms@.len() - i,
    {
        let ghost rest = rpms@.subrange(i as int, rpms@.len() as int);
        assert(rest.drop_first() =~= rpms@.subrange(i + 1, rpms@.len() as int));
        match rpms[i] {
            Some(v) => {
                if v > 0 {
                    return Some(v);
                }
            },
            None => {},
        }
        i = i + 1;
    }
    None
}

/// Tachometer reading of the CPU fan selected by `want`.
pub fn pick_fan(rpms: &Vec<Option<u32>>, want: &str) -> (r: Option<u32>)
    ensures
        r == pick_fan_spec(rpms@, want@),
{
    let parts = split_string(want, '/');
    proof {
        lemma_split_nonempty(want@, '/');
    }
    let sel = parts[parts.len() - 1].as_str();
    assert(sel@ == selector_of(want@));
    let number: Option<u64> = if starts_with(sel, "fan") {
        proof {
            reveal_strlit("fan");
        }
        let rest = sel.substring_char(3, sel.unicode_len());
        parse_uint(rest, 10, usize::MAX as u64)
    } else {
        None
    };
    assert(match number {
        Some(n) => fan_number(sel@) == Some(n as nat),
        None => fan_number(sel@) is None,
    }) by {
        reveal_strlit("fan");
    }
    let pick: Option<u32> = match number {
        Some(n) => {
            let i: u64 = if n == 0 { 0 } else { n - 1 };
            if i < rpms.len() as u64 {
                rpms[i as usize]
            } else {
                None
            }
        },
        None => {
            let head = if rpms.len() > 0 { rpms[0] } else { None };
            match head {
                Some(r) => if r > 0 { Some(r) } else { first_spinning_exec(rpms) },
                None => first_spinning_exec(rpms),
            }
        },
    };
    match pick {
        Some(r) => if r > 0 { Some(r) } else { None },
        None => None,
    }
}

/// Full-scale speed assumed for a fan turning at `rpm`: AIO pumps about
/// 3000, fast fans about 2200, others about 1500.
pub fn fan_full_scale(rpm: u32) -> (m: u32)
    ensures
        m == (if rpm > 2200 { 3000u32 } else if rpm > 1500 { 2200u32 } else { 1500u32 }),
{
    if rpm > 2200 {
        3000
    } else if rpm > 1500 {
        2200
    } else {
        1500
    }
}

/// Whether a hwmon label names a CPU fan (`cpu` or `proc`, any case).
pub open spec fn cpu_fan_label(label: Seq<char>) -> bool {
    contains_seq(lower_seq(label), "cpu"@) || contains_seq(lower_seq(label), "proc"@)
}

/// `label` names a CPU fan.
pub fn is_cpu_fan(label: &str) -> (b: bool)
    ensures
        b == cpu_fan_label(label@),
{
    let l = ascii_lowercase(label);
    contains(l.as_str(), "cpu") || contains(l.as_str(), "proc")
}

/// One hwmon tachometer: chip name, fan label (the `fanN` stem when the
/// chip gives none) and the readings of `fanN_input`, `fanN_max` and
/// `fanN_min`.
pub struct HwmonFan {
    pub chip: String,
    pub label: String,
    pub current: u64,
    pub max: Option<u64>,
    pub min: Option<u64>,
}

/// Top of a fan's range: its `max`, else the speed class of its reading.
pub open spec fn hwmon_top(f: HwmonFan) -> u64 {
    match f.max {
        Some(m) => m,
        None => if f.current > 2200 { 3000 } else if f.current > 1500 { 2200 } else { 1500 },
    }
}

/// Bottom of a fan's range: its `min`, else 0.
pub open spec fn hwmon_bottom(f: HwmonFan) -> u64 {
    match f.min {
        Some(m) => m,
        None => 0,
    }
}

/// A fan is taken for `want`: its range is not empty, and either `want`
/// is `chip/label`, or `want` is `AUTO` and the label or the chip names a
/// CPU fan.
pub open spec fn hwmon_chosen(f: HwmonFan, want: Seq<char>) -> bool {
    &&& hwmon_top(f) > hwmon_bottom(f)
    &&& if want == "AUTO"@ {
        cpu_fan_label(f.label@) || cpu_fan_label(f.chip@)
    } else {
        f.chip@ + "/"@ + f.label@ == want
    }
}

/// The first fan taken for `want`, with its position within its range as
/// a fraction `num / den` (capped at 1): the fan speed in percent is
/// `100 * num / den`. `None` when no fan is taken.
pub fn pick_hwmon_fan(fans: &Vec<HwmonFan>, want: &str) -> (r: Option<(usize, u64, u64)>)
    ensures
        match r {
            Some((i, num, den)) => {
                &&& i < fans@.len()
                &&& hwmon_chosen(fans@[i as int], want@)
                &&& forall|j: int| 0 <= j < i ==> !hwmon_chosen(#[trigger] fans@[j], want@)
                &&& den == hwmon_top(fans@[i as int]) - hwmon_bottom(fans@[i as int])
                &&& num == (if fans@[i as int].current - hwmon_bottom(fans@[i as int]) > den as int {
                    den as int
                } else if fans@[i as int].current < hwmon_bottom(fans@[i as int]) {
                    0
                } else {
                    fans@[i as int].current - hwmon_bottom(fans@[i as int])
                })
            },
            None => forall|j: int| 0 <= j < fans@.len() ==> !hwmon_chosen(#[trigger] fans@[j], want@),
        },
{
    let auto = str_eq(want, "AUTO");
    let mut i: usize = 0;
    while i < fans.len()
        invariant
            i <= fans@.len(),
            auto == (want@ == "AUTO"@),
            forall|j: int| 0 <= j < i ==> !hwmon_chosen(#[trigger] fans@[j], want@),
        decreases fans@.len() - i,
    {
        let f = &fans[i];
        let top: u64 = match f.max {
            Some(m) => m,
            None => if f.current > 2200 { 3000 } else if f.current > 1500 { 2200 } else { 1500 },
        };
        let bottom: u64 = match f.min {
            Some(m) => m,
            None => 0,
        };
        if top > bottom {
            let taken = if auto {
                is_cpu_fan(f.label.as_str()) || is_cpu_fan(f.chip.as_str())
            } else {
                let mut id = f.chip.clone();
                id.append("/");
                id.append(f.label.as_str());
                str_eq(id.as_str(), want)
            };
            if taken {
                let den = top - bottom;
                let above = if f.current > bottom { f.current - bottom } else { 0 };
                let num = if above > den { den } else { above };
                return Some((i, num, den));
            }
        }
        i = i + 1;
    }
    None
}

/// A temperature sensor as the system lists it: its label and whether it
/// has a reading (above 0 °C).
pub struct TempSensor {
    pub label: String,
    pub reading: bool,
}

/// A CPU package driver's sensor: the lower-cased label mentions
/// `coretemp`, `k10temp`, `cpu_thermal` or `zenpower`.
pub open spec fn cpu_driver_label(label: Seq<char>) -> bool {
    let l = lower_seq(label);
    contains_seq(l, "coretemp"@) || contains_seq(l, "k10temp"@) || contains_seq(l, "cpu_thermal"@)
        || contains_seq(l, "zenpower"@)
}

/// Any other CPU sensor: the lower-cased label mentions `cpu` or `package`.
pub open spec fn cpu_other_label(label: Seq<char>) -> bool {
    let l = lower_seq(label);
    contains_seq(l, "cpu"@) || contains_seq(l, "package"@)
}

/// `i` is the first sensor with a reading whose label is a CPU package
/// driver's (`driver`) or another CPU sensor's (`!driver`).
pub open spec fn first_temp(s: Seq<TempSensor>, i: int, driver: bool) -> bool {
    &&& 0 <= i < s.len()
    &&& s[i].reading
    &&& if driver { cpu_driver_label(s[i].label@) } else { cpu_other_label(s[i].label@) }
    &&& forall|j: int| 0 <= j < i ==> !(#[trigger] s[j].reading && (if driver {
        cpu_driver_label(s[j].label@)
    } else {
        cpu_other_label(s[j].label@)
    }))
}

/// The sensor the CPU temperature is read from: the first one with a
/// reading from a CPU package driver, else the first one with a reading
/// labelled as any other CPU sensor; `None` when there is neither.
pub open spec fn cpu_temp_choice(s: Seq<TempSensor>) -> Option<int> {
    if exists|i: int| first_temp(s, i, true) {
        Some(choose|i: int| first_temp(s, i, true))
    } else if exists|i: int| first_temp(s, i, false) {
        Some(choose|i: int| first_temp(s, i, false))
    } else {
        None
    }
}

/// Index of the sensor the CPU temperature is read from.
pub fn pick_cpu_temp(sensors: &Vec<TempSensor>) -> (r: Option<usize>)
    ensures
        match cpu_temp_choice(sensors@) {
            Some(i) => r == Some(i as usize),
            None => r is None,
        },
{
    let n = sensors.len();
    let mut fallback: Option<usize> = None;
    let mut i: usize = 0;
    while i < n
        invariant
            n == sensors@.len(),
            i <= n,
            forall|j: int| 0 <= j < i ==> !(#[trigger] sensors@[j].reading && cpu_driver_label(sensors@[j].label@)),
            match fallback {
                Some(k) => first_temp(sensors@, k as int, false) && k < i,
                None => forall|j: int| 0 <= j < i ==> !(#[trigger] sensors@[j].reading && cpu_other_label(sensors@[j].label@)),
            },
        decreases n - i,
    {
        let s = &sensors[i];
        if s.reading {
            let l = ascii_lowercase(s.label.as_str());
            let ls = l.as_str();
            if contains(ls, "coretemp") || contains(ls, "k10temp") || contains(ls, "cpu_thermal") || contains(ls, "zenpower") {
                proof {
                    assert(first_temp(sensors@, i as int, true));
                    let c = choose|k: int| first_temp(sensors@, k, true);
                    if c < i {
                        assert(!(sensors@[c].reading && cpu_driver_label(sensors@[c].label@)));
                    } else if c > i {
                        assert(!(sensors@[i as int].reading && cpu_driver_label(sensors@[i as int].label@)));
                    }
                }
                return Some(i);
            }
            if fallback.is_none() && (contains(ls, "cpu") || contains(ls, "package")) {
                proof {
                    assert(first_temp(sensors@, i as int, false));
                }
                fallback = Some(i);
            }
        }
        i = i + 1;
    }
    proof {
        assert(!exists|k: int| first_temp(sensors@, k, true));
        match fallback {
            Some(k) => {
                let c = choose|m: int| first_temp(sensors@, m, false);
                if c < k {
                    assert(!(sensors@[c].reading && cpu_other_label(sensors@[c].label@)));
                } else if c > k {
                    assert(!(sensors@[k as int].reading && cpu_other_label(sensors@[k as int].label@)));
                }
            },
            None => {
                assert(!exists|k: int| first_temp(sensors@, k, false));
            },
        }
    }
    fallback
}

/// A DRM directory entry is a graphics card itself (`card0`), not one of
/// its connectors (`card0-HDMI-A-1`).
pub open spec fn drm_card_spec(name: Seq<char>) -> bool {
    has_prefix(name, "card"@) && !contains_seq(name, "-"@)
}

/// `name` is a card directory of `/sys/class/drm`.
pub fn is_drm_card(name: &str) -> (b: bool)
    ensures
        b == drm_card_spec(name@),
{
    starts_with(name, "card") && !contains(name, "-")
}

/// The suffix of a hwmon reading's file name.
pub open spec fn input_suffix() -> Seq<char> {
    seq!['_', 'i', 'n', 'p', 'u', 't']
}

/// `suffix` ends `s`.
pub open spec fn has_suffix(s: Seq<char>, suffix: Seq<char>) -> bool {
    suffix.len() <= s.len() && s.subrange(s.len() - suffix.len(), s.len() as int) == suffix
}

/// `s` with every trailing `_input` removed (`str::trim_end_matches`).
pub open spec fn strip_inputs(s: Seq<char>) -> Seq<char>
    decreases s.len(),
{
    if has_suffix(s, input_suffix()) {
        strip_inputs(s.subrange(0, s.len() - 6))
    } else {
        s
    }
}

/// A hwmon file name is a fan reading: `fan…_input`.
pub open spec fn fan_input(name: Seq<char>) -> bool {
    has_prefix(name, "fan"@) && has_suffix(name, input_suffix())
}

/// The stem (`fan2`) of a hwmon fan reading's file name (`fan2_input`);
/// `None` for any other file.
pub fn fan_input_stem(name: &str) -> (r: Option<String>)
    ensures
        match r {
            Some(stem) => fan_input(name@) && stem@ == strip_inputs(name@),
            None => !fan_input(name@),
        },
{
    proof {
        reveal_strlit("_input");
        assert("_input"@ =~= input_suffix());
    }
    let n = name.unicode_len();
    if !starts_with(name, "fan") || n < 6 || !str_eq(name.substring_char(n - 6, n), "_input") {
        return None;
    }
    let mut end: usize = n;
    assert(name@.subrange(0, n as int) =~= name@);
    while end >= 6 && str_eq(name.substring_char(end - 6, end), "_input")
        invariant
            n == name@.len(),
            end <= n,
            "_input"@ == input_suffix(),
            strip_inputs(name@.subrange(0, end as int)) == strip_inputs(name@),
        decreases end,
    {
        proof {
            let t = name@.subrange(0, end as int);
            assert(t.subrange(t.len() - 6, t.len() as int) =~= name@.subrange(end - 6, end as int));
            assert(t.subrange(0, t.len() - 6) =~= name@.subrange(0, end - 6));
        }
        end = end - 6;
    }
    proof {
        let t = name@.subrange(0, end as int);
        if end >= 6 {
            assert(t.subrange(t.len() - 6, t.len() as int) =~= name@.subrange(end - 6, end as int));
        }
        assert(!has_suffix(t, input_suffix()));
    }
    Some(String::from_str(name.substring_char(0, end)))
}

/// A fan reported by hwmon while looking for the GPU fan: the raw chip
/// name and fan label texts (empty when missing) and the readings of
/// `fanN_input` and `fanN_max`.
pub struct GpuFanEntry {
    pub chip: String,
    pub label: String,
    pub current: Option<u64>,
    pub max: Option<u64>,
}

/// Top of a GPU fan's range: its `max`, else 3000 rpm.
pub open spec fn gpu_fan_top(f: GpuFanEntry) -> u64 {
    match f.max {
        Some(m) => m,
        None => 3000,
    }
}

/// The fan belongs to the GPU (its trimmed, lower-cased label or chip
/// mentions `gpu`) and has a reading and a non-zero top.
pub open spec fn gpu_fan_taken(f: GpuFanEntry) -> bool {
    let l = lower_seq(trim_spec(f.label@));
    let c = lower_seq(trim_spec(f.chip@));
    &&& contains_seq(l, "gpu"@) || contains_seq(c, "gpu"@) || contains_seq(c, "amdgpu"@)
    &&& f.current is Some
    &&& gpu_fan_top(f) > 0
}

/// The first GPU fan, as `(reading capped at the top, top)`: the fan speed
/// in percent is `100 * reading / top`. `None` when there is none.
pub fn pick_gpu_fan(fans: &Vec<GpuFanEntry>) -> (r: Option<(u64, u64)>)
    ensures
        match r {
            Some((cur, top)) => exists|i: int|
                0 <= i < fans@.len() && gpu_fan_taken(#[trigger] fans@[i]) && (forall|j: int|
                    0 <= j < i ==> !gpu_fan_taken(#[trigger] fans@[j])) && top == gpu_fan_top(fans@[i])
                    && cur == (if fans@[i].current.unwrap() < top { fans@[i].current.unwrap() } else { top }),
            None => forall|j: int| 0 <= j < fans@.len() ==> !gpu_fan_taken(#[trigger] fans@[j]),
        },
{
    let mut i: usize = 0;
    while i < fans.len()
        invariant
            i <= fans@.len(),
            forall|j: int| 0 <= j < i ==> !gpu_fan_taken(#[trigger] fans@[j]),
        decreases fans@.len() - i,
    {
        let f = &fans[i];
        let l = ascii_lowercase(trim(f.label.as_str()));
        let c = ascii_lowercase(trim(f.chip.as_str()));
        let gpu = contains(l.as_str(), "gpu") || contains(c.as_str(), "gpu") || contains(c.as_str(), "amdgpu");
        let top: u64 = match f.max {
            Some(m) => m,
            None => 3000,
        };
        if gpu && top > 0 {
            match f.current {
                Some(cur) => {
                    let capped = if cur < top { cur } else { top };
                    assert(gpu_fan_taken(fans@[i as int]));
                    return Some((capped, top));
                },
                None => {},
            }
        }
        i = i + 1;
    }
    None
}

/// Digits of `s`, in order.
pub open spec fn digits_only(s: Seq<char>) -> Seq<char>
    decreases s.len(),
{
    if s.len() == 0 {
        Seq::empty()
    } else {
        digits_only(s.drop_last()) + if '0' <= s.last() && s.last() <= '9' {
            seq![s.last()]
        } else {
            Seq::<char>::empty()
        }
    }
}

/// `i` is the first of `lines` that contains `*`.
pub open spec fn first_marked(lines: Seq<Seq<char>>, i: int) -> bool {
    &&& 0 <= i < lines.len()
    &&& contains_seq(lines[i], "*"@)
    &&& forall|j: int| 0 <= j < i ==> !contains_seq(#[trigger] lines[j], "*"@)
}

/// Digits of the active `pp_dpm_sclk` line (the first line marked `*`).
pub open spec fn active_sclk_spec(text: Seq<char>) -> Option<Seq<char>> {
    let lines = split_on(text, '\n');
    if exists|i: int| first_marked(lines, i) {
        Some(digits_only(lines[choose|i: int| first_marked(lines, i)]))
    } else {
        None
    }
}

/// Digits of `s`.
fn digits_of(s: &str) -> (r: String)
    ensures
        r@ == digits_only(s@),
{
    let n = s.unicode_len();
    let mut r = String::new();
    let mut i: usize = 0;
    while i < n
        invariant
            i <= n,
            n == s@.len(),
            r@ == digits_only(s@.subrange(0, i as int)),
        decreases n - i,
    {
        let c = s.get_char(i);
        assert(s@.subrange(0, i + 1).drop_last() =~= s@.subrange(0, i as int));
        if '0' <= c && c <= '9' {
            push_char(&mut r, c);
            assert(r@ =~= digits_only(s@.subrange(0, i + 1)));
        } else {
            assert(r@ =~= digits_only(s@.subrange(0, i + 1)));
        }
        i = i + 1;
    }
    assert(s@.subrange(0, n as int) =~= s@);
    r
}

/// Clock of the active entry of an AMD `pp_dpm_sclk` listing
/// (`1: 1500Mhz *`), as its digits.
pub fn active_sclk_digits(text: &str) -> (r: Option<String>)
    ensures
        match r {
            Some(d) => active_sclk_spec(text@) == Some(d@),
            None => active_sclk_spec(text@) is None,
        },
{
    let lines = split_string(text, '\n');
    let ghost lv = split_on(text@, '\n');
    assert(strings_v(lines@) == lv);
    let mut i: usize = 0;
    while i < lines.len()
        invariant
            i <= lines@.len(),
            lv.len() == lines@.len(),
            lv == split_on(text@, '\n'),
            strings_v(lines@) == lv,
            forall|j: int| 0 <= j < i ==> !contains_seq(#[trigger] lv[j], "*"@),
        decreases lines@.len() - i,
    {
        assert(lv[i as int] == lines@[i as int]@);
        if contains(lines[i].as_str(), "*") {
            assert(first_marked(lv, i as int));
            proof {
                let c = choose|k: int| first_marked(lv, k);
                if c < i {
                    assert(!contains_seq(lv[c], "*"@));
                } else if c > i {
                    assert(!contains_seq(lv[i as int], "*"@));
                }
                assert(c == i);
                assert(active_sclk_spec(text@) == Some(digits_only(lv[c])));
            }
            let d = digits_of(lines[i].as_str());
            assert(d@ == digits_only(lv[i as int]));
            return Some(d);
        }
        i = i + 1;
    }
    assert(!exists|k: int| first_marked(lv, k));
    None
}

/// A mounted disk: mount point, total and available bytes.
pub struct DiskInfo {
    pub mount: String,
    pub total: u64,
    pub available: u64,
}

/// `i` is the first disk mounted at `/`.
pub open spec fn first_root_mount(d: Seq<DiskInfo>, i: int) -> bool {
    &&& 0 <= i < d.len()
    &&& d[i].mount@ == "/"@
    &&& forall|j: int| 0 <= j < i ==> (#[trigger] d[j]).mount@ != "/"@
}

/// `i` is the first disk mounted on drive `C:`.
pub open spec fn first_c_mount(d: Seq<DiskInfo>, i: int) -> bool {
    &&& 0 <= i < d.len()
    &&& has_prefix(d[i].mount@, "C:"@)
    &&& forall|j: int| 0 <= j < i ==> !has_prefix((#[trigger] d[j]).mount@, "C:"@)
}

/// `i` is the last of the largest disks.
pub open spec fn last_largest(d: Seq<DiskInfo>, i: int) -> bool {
    &&& 0 <= i < d.len()
    &&& forall|j: int| 0 <= j < d.len() ==> (#[trigger] d[j]).total <= d[i].total
    &&& forall|j: int| i < j < d.len() ==> (#[trigger] d[j]).total < d[i].total
}

/// The disk reported as the system disk: the one mounted at `/`, else (on
/// Windows) the one on drive `C:`, else the last of the largest.
pub open spec fn system_disk(d: Seq<DiskInfo>, windows: bool, i: int) -> bool {
    if exists|k: int| first_root_mount(d, k) {
        first_root_mount(d, i)
    } else if windows && exists|k: int| first_c_mount(d, k) {
        first_c_mount(d, i)
    } else {
        last_largest(d, i)
    }
}

/// Total and available bytes of the system disk; `(0, 0)` without disks.
pub fn root_disk(disks: &Vec<DiskInfo>, windows: bool) -> (r: (u64, u64))
    ensures
        disks@.len() == 0 ==> r == (0u64, 0u64),
        disks@.len() > 0 ==> exists|i: int|
            system_disk(disks@, windows, i) && r == ((#[trigger] disks@[i]).total, disks@[i].available),
{
    let n = disks.len();
    if n == 0 {
        return (0, 0);
    }
    let mut i: usize = 0;
    while i < n
        invariant
            i <= n,
            n == disks@.len(),
            forall|j: int| 0 <= j < i ==> (#[trigger] disks@[j]).mount@ != "/"@,
        decreases n - i,
    {
        if str_eq(disks[i].mount.as_str(), "/") {
            assert(first_root_mount(disks@, i as int));
            proof {
                let c = choose|k: int| first_root_mount(disks@, k);
                if c < i {
                    assert(disks@[c].mount@ != "/"@);
                } else if c > i {
                    assert(disks@[i as int].mount@ != "/"@);
                }
                assert(system_disk(disks@, windows, i as int));
            }
            return (disks[i].total, disks[i].available);
        }
        i = i + 1;
    }
    assert(!exists|k: int| first_root_mount(disks@, k));
    if windows {
        let mut i: usize = 0;
        while i < n
            invariant
                i <= n,
                n == disks@.len(),
                windows,
                !exists|k: int| first_root_mount(disks@, k),
                forall|j: int| 0 <= j < i ==> !has_prefix((#[trigger] disks@[j]).mount@, "C:"@),
            decreases n - i,
        {
            if starts_with(disks[i].mount.as_str(), "C:") {
                assert(first_c_mount(disks@, i as int));
                proof {
                    let c = choose|k: int| first_c_mount(disks@, k);
                    if c < i {
                        assert(!has_prefix(disks@[c].mount@, "C:"@));
                    } else if c > i {
                        assert(!has_prefix(disks@[i as int].mount@, "C:"@));
                    }
                    assert(system_disk(disks@, windows, i as int));
                }
                return (disks[i].total, disks[i].available);
            }
            i = i + 1;
        }
        assert(!exists|k: int| first_c_mount(disks@, k));
    }
    let mut best: usize = 0;
    let mut i: usize = 1;
    while i < n
        invariant
            1 <= i <= n,
            best < i,
            n == disks@.len(),
            forall|j: int| 0 <= j < i ==> (#[trigger] disks@[j]).total <= disks@[best as int].total,
            forall|j: int| best < j < i ==> (#[trigger] disks@[j]).total < disks@[best as int].total,
        decreases n - i,
    {
        if disks[i].total >= disks[best].total {
            best = i;
        }
        i = i + 1;
    }
    assert(last_largest(disks@, best as int));
    assert(system_disk(disks@, windows, best as int));
    (disks[best].total, disks[best].available)
}

/// Weather API key: the environment's when it is set and not blank, else
/// the configured one.
pub open spec fn api_key_spec(env: Option<Seq<char>>, configured: Seq<char>) -> Seq<char> {
    match env {
        Some(e) => if trim_spec(e).len() > 0 { e } else { configured },
        None => configured,
    }
}

/// The weather API key to use.
pub fn weather_api_key(env: Option<&str>, configured: &str) -> (k: String)
    ensures
        k@ == api_key_spec(
            match env {
                Some(e) => Some(e@),
                None => None,
            },
            configured@,
        ),
{
    match env {
        Some(e) => if trim(e).unicode_len() > 0 { String::from_str(e) } else { String::from_str(configured) },
        None => String::from_str(configured),
    }
}

/// One xorshift64 step (shifts 12, 25, 27).
pub open spec fn xs_step(x: u64) -> u64 {
    let a = x ^ (x >> 12u64);
    let b = a ^ (a << 25u64);
    b ^ (b >> 27u64)
}

/// Multiplier of the xorshift64* output.
pub const XS_MULT: u64 = 0x2545F4914F6CDD1D;

/// Output for a state: the state times [`XS_MULT`], modulo 2^64.
pub open spec fn xs_output(x: u64) -> u64 {
    ((x as nat * XS_MULT as nat) % 0x1_0000_0000_0000_0000nat) as u64
}

/// xorshift64* generator; the state is never zero.
#[derive(Debug, Clone)]
pub struct XorShift64(pub u64);

impl XorShift64 {
    /// Generator seeded with `seed` (zero is replaced by a fixed constant).
    pub fn new(seed: u64) -> (r: Self)
        ensures
            r.0 == (if seed == 0 { 0x9E3779B97F4A7C15u64 } else { seed }),
            r.0 != 0,
    {
        XorShift64(if seed == 0 { 0x9E3779B97F4A7C15 } else { seed })
    }

    /// Advances the state and returns the scrambled output.
    pub fn next_u64(&mut self) -> (v: u64)
        ensures
            final(self).0 == xs_step(old(self).0),
            v == xs_output(xs_step(old(self).0)),
    {
        let mut x = self.0;
        x ^= x >> 12u64;
        x ^= x << 25u64;
        x ^= x >> 27u64;
        self.0 = x;
        x.wrapping_mul(XS_MULT)
    }

    /// Integer in `lo..hi` (just `lo` when the range is empty).
    pub fn uniform_u64(&mut self, lo: u64, hi: u64) -> (v: u64)
        requires
            lo <= hi,
        ensures
            final(self).0 == xs_step(old(self).0),
            v == lo + xs_output(xs_step(old(self).0)) % (
            if hi - lo > 1 { (hi - lo) as u64 } else { 1u64 }),
            lo <= v && (v < hi || v == lo),
    {
        let span = if hi - lo > 1 { hi - lo } else { 1 };
        let r = self.next_u64() % span;
        lo + r
    }
}

/// A non-zero state never becomes zero, so the generator never sticks.
pub proof fn lemma_state_stays_nonzero(x: u64)
    requires
        x != 0,
    ensures
        xs_step(x) != 0,
{
    assert(x != 0 ==> (x ^ (x >> 12u64)) != 0) by (bit_vector);
    let a = x ^ (x >> 12u64);
    assert(a != 0 ==> (a ^ (a << 25u64)) != 0) by (bit_vector);
    let b = a ^ (a << 25u64);
    assert(b != 0 ==> (b ^ (b >> 27u64)) != 0) by (bit_vector);
}

/// Network interfaces to poll (`ETH`, `WLO`).
pub struct NetSelection {
    pub eth: String,
    pub wlo: String,
}

/// Source of the sensor readings.
pub enum Provider {
    /// Live system counters; the CPU fan selector is kept for the fan path.
    Sysinfo { cpu_fan: String },
    /// Fixed demonstration values.
    StubStatic,
    /// Random demonstration values.
    StubRandom(XorShift64),
}

impl Provider {
    /// Provider for `HW_SENSORS`: live counters for `AUTO`, `PYTHON` and
    /// `LHM`, random values (seed 10) for `STUB`, fixed ones for `STATIC`.
    pub fn from_hw(hw: crate::config::HwSensors, cpu_fan: &str) -> (p: Provider)
        ensures
            (hw == crate::config::HwSensors::Auto || hw == crate::config::HwSensors::Python || hw
                == crate::config::HwSensors::Lhm) ==> (p matches Provider::Sysinfo { cpu_fan: f } && f@ == cpu_fan@),
            hw == crate::config::HwSensors::Stub ==> (p matches Provider::StubRandom(r) && r.0 == 10),
            hw == crate::config::HwSensors::Static ==> p is StubStatic,
    {
        match hw {
            crate::config::HwSensors::Auto | crate::config::HwSensors::Python | crate::config::HwSensors::Lhm => {
                Provider::Sysinfo { cpu_fan: String::from_str(cpu_fan) }
            },
            crate::config::HwSensors::Stub => Provider::StubRandom(XorShift64::new(10)),
            crate::config::HwSensors::Static => Provider::StubStatic,
        }
    }

    /// Whether GPU values are available: the stubs always have them; live
    /// counters have them when a GPU was `detected`.
    pub fn gpu_available(&self, detected: bool) -> (b: bool)
        ensures
            b == (match self {
                Provider::Sysinfo { .. } => detected,
                _ => true,
            }),
    {
        match self {
            Provider::Sysinfo { .. } => detected,
            _ => true,
        }
    }
}

/// Current weather as displayed texts.
pub struct Weather {
    pub temp: Option<String>,
    pub felt: Option<String>,
    pub description: Option<String>,
    pub humidity: Option<String>,
    /// Local update stamp, e.g. `@15:33`.
    pub update: Option<String>,
}

/// The `message` string of the JSON object that `body` holds; `None` when
/// `body` is not JSON or has no such string.
pub uninterp spec fn json_message(body: Seq<u8>) -> Option<Seq<char>>;

/// `serde_json::from_slice::<serde_json::Value>` on `body`, then
/// `Value::get("message")` and `Value::as_str`. Claims: the result is the
/// named function of the bytes; the JSON grammar is not stated.
#[verifier::external_body]
fn json_message_field(body: &[u8]) -> (r: Option<String>)
    ensures
        match r {
            Some(m) => json_message(body@) == Some(m@),
            None => json_message(body@) is None,
        },
{
    let value: serde_json::Value = match serde_json::from_slice(body) {
        Ok(v) => v,
        Err(_) => return None,
    };
    match value.get("message") {
        Some(m) => match m.as_str() {
            Some(t) => Some(t.to_string()),
            None => None,
        },
        None => None,
    }
}

/// The text shown for a refused weather request: the service's message,
/// else `unknown error`.
pub fn error_text_of(message: Option<String>) -> (s: String)
    ensures
        s@ == (match message {
            Some(m) => m@,
            None => "unknown error"@,
        }),
{
    match message {
        Some(m) => m,
        None => String::from_str("unknown error"),
    }
}

/// The text shown for a refused weather request whose answer body is
/// `body`: the `message` of its JSON, else `unknown error`.
pub fn weather_error_text(body: &[u8]) -> (s: String)
    ensures
        s@ == (match json_message(body@) {
            Some(m) => m,
            None => "unknown error"@,
        }),
{
    error_text_of(json_message_field(body))
}

impl Weather {
    /// Weather carrying only a message in its description.
    pub fn message(msg: &str) -> (w: Weather)
        ensures
            w.temp is None && w.felt is None && w.humidity is None && w.update is None,
            w.description matches Some(d) && d@ == msg@,
    {
        Weather {
            temp: None,
            felt: None,
            description: Some(String::from_str(msg)),
            humidity: None,
            update: None,
        }
    }
}

/// The weather shown before any request: a message when no API key is
/// configured (nothing is fetched then), otherwise `None`.
pub fn weather_without_key(api_key: &str) -> (w: Option<Weather>)
    ensures
        w is Some <==> api_key@.len() == 0,
        w matches Some(x) ==> x.temp is None && x.felt is None && x.humidity is None && x.update is None,
        w matches Some(x) ==> (x.description matches Some(d) && d@ == "No OpenWeatherMap API key"@),
{
    if api_key.unicode_len() == 0 {
        Some(Weather::message("No OpenWeatherMap API key"))
    } else {
        None
    }
}

/// Temperature suffix for `WEATHER_UNITS`.
pub open spec fn degree_suffix_spec(units: Seq<char>) -> Seq<char> {
    if units == "metric"@ {
        "°C"@
    } else if units == "imperial"@ {
        "°F"@
    } else if units == "standard"@ {
        "°K"@
    } else {
        "°?"@
    }
}

/// Temperature suffix for the configured units.
pub fn degree_suffix(units: &str) -> (s: &'static str)
    ensures
        s@ == degree_suffix_spec(units@),
{
    if str_eq(units, "metric") {
        "°C"
    } else if str_eq(units, "imperial") {
        "°F"
    } else if str_eq(units, "standard") {
        "°K"
    } else {
        "°?"
    }
}

/// ASCII upper-casing of one character.
pub open spec fn upper(c: char) -> char {
    if 'a' <= c && c <= 'z' { ((c as int) - 32) as char } else { c }
}

/// `d` with its first character upper-cased when it is ASCII.
pub open spec fn capitalized(d: Seq<char>) -> Seq<char> {
    if d.len() > 0 { d.update(0, upper(d[0])) } else { d }
}

/// Description text with an ASCII first letter capitalized.
pub fn capitalize_first(d: &str) -> (r: String)
    ensures
        r@ == capitalized(d@),
{
    let n = d.unicode_len();
    let mut r = String::new();
    let mut i: usize = 0;
    while i < n
        invariant
            i <= n,
            n == d@.len(),
            r@ == capitalized(d@).subrange(0, i as int),
        decreases n - i,
    {
        let c = d.get_char(i);
        let u = if i == 0 && 'a' <= c && c <= 'z' { ((c as u32) - 32) as u8 as char } else { c };
        crate::text::push_char(&mut r, u);
        assert(r@ =~= capitalized(d@).subrange(0, i + 1));
        i = i + 1;
    }
    assert(capitalized(d@).subrange(0, n as int) =~= capitalized(d@));
    r
}

/// Demonstration source that reports the platform as text.
pub struct ExampleText;

impl ExampleText {
    /// `os arch`.
    pub fn text(os: &str, arch: &str) -> (s: String)
        ensures
            s@ == os@ + " "@ + arch@,
    {
        let mut s = String::from_str(os);
        s.append(" ");
        s.append(arch);
        s
    }
}

/// `i` is the first position of `t` in `s`.
pub open spec fn first_at(s: Seq<char>, t: Seq<char>, i: int) -> bool {
    &&& 0 <= i && i + t.len() <= s.len()
    &&& s.subrange(i, i + t.len()) == t
    &&& forall|j: int| 0 <= j < i ==> #[trigger] s.subrange(j, j + t.len()) != t
}

/// `s` without leading `=`, `<` and spaces.
pub open spec fn skip_marks(s: Seq<char>) -> Seq<char>
    decreases s.len(),
{
    if s.len() > 0 && (s[0] == '=' || s[0] == '<' || s[0] == ' ') { skip_marks(s.drop_first()) } else { s }
}

/// Leading run of digits, `.` and `,` of `s`, with `,` read as `.`.
pub open spec fn number_run(s: Seq<char>) -> Seq<char>
    decreases s.len(),
{
    if s.len() > 0 && (('0' <= s[0] && s[0] <= '9') || s[0] == '.' || s[0] == ',') {
        seq![if s[0] == ',' { '.' } else { s[0] }] + number_run(s.drop_first())
    } else {
        Seq::empty()
    }
}

/// Text of the round-trip time in ping output: the number after the
/// first `time` (any case), past `=`, `<` and spaces.
pub open spec fn ping_text_spec(text: Seq<char>) -> Option<Seq<char>> {
    let l = lower_seq(text);
    if exists|i: int| first_at(l, "time"@, i) {
        let i = choose|i: int| first_at(l, "time"@, i);
        let num = number_run(skip_marks(l.subrange(i + 4, l.len() as int)));
        if num.len() > 0 { Some(num) } else { None }
    } else {
        None
    }
}

proof fn lemma_skip_at(s: Seq<char>, k: int)
    requires
        0 <= k <= s.len(),
        forall|j: int| 0 <= j < k ==> (#[trigger] s[j] == '=' || s[j] == '<' || s[j] == ' '),
        k < s.len() ==> !(s[k] == '=' || s[k] == '<' || s[k] == ' '),
    ensures
        skip_marks(s) == s.subrange(k, s.len() as int),
    decreases k,
{
    if k == 0 {
        assert(s.subrange(0, s.len() as int) =~= s);
    } else {
        assert(s.drop_first().subrange(k - 1, s.len() - 1) =~= s.subrange(k, s.len() as int));
        assert forall|j: int| 0 <= j < k - 1 implies (#[trigger] s.drop_first()[j] == '=' || s.drop_first()[j] == '<'
            || s.drop_first()[j] == ' ') by {
            assert(s.drop_first()[j] == s[j + 1]);
        }
        lemma_skip_at(s.drop_first(), k - 1);
    }
}

proof fn lemma_number_run_step(s: Seq<char>, k: int)
    requires
        0 <= k < s.len(),
        forall|j: int| 0 <= j <= k ==> (('0' <= #[trigger] s[j] && s[j] <= '9') || s[j] == '.' || s[j] == ','),
    ensures
        number_run(s.subrange(k, s.len() as int)) == seq![if s[k] == ',' { '.' } else { s[k] }] + number_run(
            s.subrange(k + 1, s.len() as int),
        ),
{
    let t = s.subrange(k, s.len() as int);
    assert(t[0] == s[k]);
    assert(t.drop_first() =~= s.subrange(k + 1, s.len() as int));
}

/// First position of `t` in `s`.
pub fn find_first(s: &str, t: &str) -> (r: Option<usize>)
    ensures
        r matches Some(i) ==> first_at(s@, t@, i as int),
        r is None ==> !exists|i: int| first_at(s@, t@, i),
{
    let n = s.unicode_len();
    let m = t.unicode_len();
    if m > n {
        return None;
    }
    if m == 0 {
        assert(s@.subrange(0, 0int + t@.len()) =~= t@);
        return Some(0);
    }
    let mut i: usize = 0;
    while i <= n - m
        invariant
            1 <= m <= n,
            n == s@.len(),
            m == t@.len(),
            i <= n - m + 1,
            forall|j: int| 0 <= j < i ==> #[trigger] s@.subrange(j, j + m) != t@,
        decreases n + 1 - i,
    {
        if str_eq(s.substring_char(i, i + m), t) {
            return Some(i);
        }
        i = i + 1;
    }
    assert forall|j: int| !first_at(s@, t@, j) by {
        if first_at(s@, t@, j) {
            assert(s@.subrange(j, j + m) != t@);
        }
    }
    None
}

/// Round-trip time text of ping output (`time=12.3 ms`, `time<1ms`,
/// decimal comma accepted).
pub fn ping_ms_text(text: &str) -> (r: Option<String>)
    ensures
        match (r, ping_text_spec(text@)) {
            (Some(a), Some(b)) => a@ == b,
            (None, None) => true,
            _ => false,
        },
{
    let lower = ascii_lowercase(text);
    let l = lower.as_str();
    let n = l.unicode_len();
    let ghost ls = l@;
    proof {
        reveal_strlit("time");
    }
    let i = match find_first(l, "time") {
        Some(i) => i,
        None => {
            return None;
        },
    };
    proof {
        let c = choose|j: int| first_at(ls, "time"@, j);
        if c < i {
            assert(ls.subrange(c, c + 4) != "time"@);
        } else if c > i {
            assert(ls.subrange(i as int, i + 4) != "time"@);
        }
    }
    let mut k: usize = i + 4;
    while k < n && (l.get_char(k) == '=' || l.get_char(k) == '<' || l.get_char(k) == ' ')
        invariant
            i + 4 <= k <= n,
            n == ls.len(),
            ls == l@,
            forall|j: int| i + 4 <= j < k ==> (#[trigger] ls[j] == '=' || ls[j] == '<' || ls[j] == ' '),
        decreases n - k,
    {
        k = k + 1;
    }
    proof {
        let rest = ls.subrange(i + 4, n as int);
        assert forall|j: int| 0 <= j < k - (i + 4) implies (#[trigger] rest[j] == '=' || rest[j] == '<' || rest[j] == ' ') by {
            assert(rest[j] == ls[j + i + 4]);
        }
        if k < n {
            assert(rest[k - (i + 4)] == ls[k as int]);
        }
        lemma_skip_at(rest, k - (i + 4));
        assert(rest.subrange(k - (i + 4), rest.len() as int) =~= ls.subrange(k as int, n as int));
    }
    let mut num = String::new();
    let start = k;
    while k < n && ((l.get_char(k) >= '0' && l.get_char(k) <= '9') || l.get_char(k) == '.' || l.get_char(k) == ',')
        invariant
            start <= k <= n,
            n == ls.len(),
            ls == l@,
            forall|j: int| start <= j < k ==> (('0' <= #[trigger] ls[j] && ls[j] <= '9') || ls[j] == '.' || ls[j] == ','),
            num@ + number_run(ls.subrange(k as int, n as int)) == number_run(ls.subrange(start as int, n as int)),
        decreases n - k,
    {
        let c = l.get_char(k);
        proof {
            let sub = ls.subrange(start as int, n as int);
            assert forall|j: int| 0 <= j <= k - start implies (('0' <= #[trigger] sub[j] && sub[j] <= '9') || sub[j] == '.'
                || sub[j] == ',') by {
                assert(sub[j] == ls[j + start]);
            }
            lemma_number_run_step(sub, k - start);
            assert(sub.subrange(k - start, sub.len() as int) =~= ls.subrange(k as int, n as int));
            assert(sub.subrange(k - start + 1, sub.len() as int) =~= ls.subrange(k + 1, n as int));
        }
        crate::text::push_char(&mut num, if c == ',' { '.' } else { c });
        assert(num@ + number_run(ls.subrange(k + 1, n as int)) =~= number_run(ls.subrange(start as int, n as int)));
        k = k + 1;
    }
    proof {
        let t = ls.subrange(k as int, n as int);
        if k < n {
            assert(t[0] == ls[k as int]);
        }
        assert(number_run(t) =~= Seq::<char>::empty());
        assert(num@ =~= number_run(ls.subrange(start as int, n as int)));
    }
    if num.as_str().unicode_len() == 0 {
        None
    } else {
        Some(num)
    }
}

} // verus!
