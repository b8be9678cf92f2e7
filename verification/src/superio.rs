//! SuperIO fan tachometers: ISA PNP chip identification, hardware-monitor
//! base validation, banked register reads and tachometer-to-RPM decoding
//! for Nuvoton NCT67xx and ITE IT87xx chips.

use vstd::prelude::*;
use crate::sensors::{pick_fan, pick_fan_spec};

use crate::hwio::{PortIo, WinRing0};

verus! {

/// PNP configuration index ports probed, in order.
pub const REG_PORTS: [u16; 2] = [0x2E, 0x4E];

/// Nuvoton chip table: `(id, rev)` to `(name, fan count)`.
pub open spec fn nct_table(id: u8, rev: u8) -> Option<(Seq<char>, usize)> {
    if id == 0xB4 && rev >= 0x70 {
        Some(("NCT6771F"@, 4usize))
    } else if id == 0xC3 && rev >= 0x30 {
        Some(("NCT6776F"@, 5usize))
    } else if id == 0xC5 && rev >= 0x60 {
        Some(("NCT6779D"@, 5usize))
    } else if id == 0xC8 && rev == 0x03 {
        Some(("NCT6791D"@, 6usize))
    } else if id == 0xC9 && rev == 0x11 {
        Some(("NCT6792D"@, 6usize))
    } else if id == 0xC9 && rev == 0x13 {
        Some(("NCT6792D-A"@, 6usize))
    } else if id == 0xD1 && rev == 0x21 {
        Some(("NCT6793D"@, 6usize))
    } else if id == 0xD3 && rev == 0x52 {
        Some(("NCT6795D"@, 6usize))
    } else if id == 0xD4 && rev == 0x23 {
        Some(("NCT6796D"@, 6usize))
    } else if id == 0xD4 && rev == 0x2A {
        Some(("NCT6796D-R"@, 7usize))
    } else if id == 0xD4 && rev == 0x51 {
        Some(("NCT6797D"@, 7usize))
    } else if id == 0xD4 && rev == 0x2B {
        Some(("NCT6798D"@, 7usize))
    } else if id == 0xD4 && (rev == 0x40 || rev == 0x41) {
        Some(("NCT6686D"@, 7usize))
    } else if id == 0xD8 && rev == 0x02 {
        Some(("NCT6799D"@, 7usize))
    } else {
        None
    }
}

/// ITE chip table: 16-bit chip ID to `(name, fan count)`.
pub open spec fn ite_table(id: u16) -> Option<(Seq<char>, usize)> {
    if id == 0x8688 {
        Some(("IT8688E"@, 6usize))
    } else if id == 0x8792 || id == 0x8733 {
        Some(("IT8792E"@, 3usize))
    } else if id == 0x8695 {
        Some(("IT87952E"@, 3usize))
    } else if id == 0x8628 || id == 0x8631 || id == 0x8665 || id == 0x8686 || id == 0x8689
        || id == 0x8696 || id == 0x8728 {
        Some(("IT87xx"@, 5usize))
    } else if id == 0x8613 || id == 0x8620 || id == 0x8625 || id == 0x8638 || id == 0x8655
        || id == 0x8705 || id == 0x8712 || id == 0x8716 || id == 0x8718 || id == 0x8720
        || id == 0x8721 || id == 0x8726 || id == 0x8771 || id == 0x8772 || id == 0x8790 {
        Some(("IT87xx"@, 3usize))
    } else {
        None
    }
}

/// The Nuvoton chips recognized: PNP chip ID, lowest and highest
/// revision, name and number of fan tachometers.
pub open spec fn nuvoton_chips() -> Seq<(u8, u8, u8, Seq<char>, usize)> {
    seq![
        (0xB4u8, 0x70u8, 0xFFu8, "NCT6771F"@, 4usize),
        (0xC3u8, 0x30u8, 0xFFu8, "NCT6776F"@, 5usize),
        (0xC5u8, 0x60u8, 0xFFu8, "NCT6779D"@, 5usize),
        (0xC8u8, 0x03u8, 0x03u8, "NCT6791D"@, 6usize),
        (0xC9u8, 0x11u8, 0x11u8, "NCT6792D"@, 6usize),
        (0xC9u8, 0x13u8, 0x13u8, "NCT6792D-A"@, 6usize),
        (0xD1u8, 0x21u8, 0x21u8, "NCT6793D"@, 6usize),
        (0xD3u8, 0x52u8, 0x52u8, "NCT6795D"@, 6usize),
        (0xD4u8, 0x23u8, 0x23u8, "NCT6796D"@, 6usize),
        (0xD4u8, 0x2Au8, 0x2Au8, "NCT6796D-R"@, 7usize),
        (0xD4u8, 0x51u8, 0x51u8, "NCT6797D"@, 7usize),
        (0xD4u8, 0x2Bu8, 0x2Bu8, "NCT6798D"@, 7usize),
        (0xD4u8, 0x40u8, 0x41u8, "NCT6686D"@, 7usize),
        (0xD8u8, 0x02u8, 0x02u8, "NCT6799D"@, 7usize),
    ]
}

/// The ITE chips recognized: 16-bit chip ID, name and number of fan
/// tachometers.
pub open spec fn ite_chips() -> Seq<(u16, Seq<char>, usize)> {
    seq![
        (0x8688u16, "IT8688E"@, 6usize),
        (0x8792u16, "IT8792E"@, 3usize),
        (0x8733u16, "IT8792E"@, 3usize),
        (0x8695u16, "IT87952E"@, 3usize),
        (0x8628u16, "IT87xx"@, 5usize),
        (0x8631u16, "IT87xx"@, 5usize),
        (0x8665u16, "IT87xx"@, 5usize),
        (0x8686u16, "IT87xx"@, 5usize),
        (0x8689u16, "IT87xx"@, 5usize),
        (0x8696u16, "IT87xx"@, 5usize),
        (0x8728u16, "IT87xx"@, 5usize),
        (0x8613u16, "IT87xx"@, 3usize),
        (0x8620u16, "IT87xx"@, 3usize),
        (0x8625u16, "IT87xx"@, 3usize),
        (0x8638u16, "IT87xx"@, 3usize),
        (0x8655u16, "IT87xx"@, 3usize),
        (0x8705u16, "IT87xx"@, 3usize),
        (0x8712u16, "IT87xx"@, 3usize),
        (0x8716u16, "IT87xx"@, 3usize),
        (0x8718u16, "IT87xx"@, 3usize),
        (0x8720u16, "IT87xx"@, 3usize),
        (0x8721u16, "IT87xx"@, 3usize),
        (0x8726u16, "IT87xx"@, 3usize),
        (0x8771u16, "IT87xx"@, 3usize),
        (0x8772u16, "IT87xx"@, 3usize),
        (0x8790u16, "IT87xx"@, 3usize),
    ]
}

/// Nuvoton identification recognizes exactly the chips of
/// [`nuvoton_chips`]: an ID with a revision in an entry's range gives that
/// entry's name and fan count, and anything identified is covered by an
/// entry.
pub proof fn lemma_nct_table_is_the_chip_list(i: int, id: u8, rev: u8)
    ensures
        ({
            let l = nuvoton_chips();
            0 <= i < l.len() && l[i].0 == id && l[i].1 <= rev <= l[i].2 ==> nct_table(id, rev) == Some((l[i].3, l[i].4))
        }),
        nct_table(id, rev) is Some ==> exists|j: int|
            0 <= j < nuvoton_chips().len() && #[trigger] nuvoton_chips()[j].0 == id && nuvoton_chips()[j].1 <= rev
                <= nuvoton_chips()[j].2,
{
    let l = nuvoton_chips();
    if id == 0xB4 && 0x70 <= rev && rev <= 0xFF {
        assert(l[0] == (0xB4u8, 0x70u8, 0xFFu8, "NCT6771F"@, 4usize) && l[0].0 == id && l[0].1 <= rev <= l[0].2);
    } else if id == 0xC3 && 0x30 <= rev && rev <= 0xFF {
        assert(l[1] == (0xC3u8, 0x30u8, 0xFFu8, "NCT6776F"@, 5usize) && l[1].0 == id && l[1].1 <= rev <= l[1].2);
    } else if id == 0xC5 && 0x60 <= rev && rev <= 0xFF {
        assert(l[2] == (0xC5u8, 0x60u8, 0xFFu8, "NCT6779D"@, 5usize) && l[2].0 == id && l[2].1 <= rev <= l[2].2);
    } else if id == 0xC8 && 0x03 <= rev && rev <= 0x03 {
        assert(l[3] == (0xC8u8, 0x03u8, 0x03u8, "NCT6791D"@, 6usize) && l[3].0 == id && l[3].1 <= rev <= l[3].2);
    } else if id == 0xC9 && 0x11 <= rev && rev <= 0x11 {
        assert(l[4] == (0xC9u8, 0x11u8, 0x11u8, "NCT6792D"@, 6usize) && l[4].0 == id && l[4].1 <= rev <= l[4].2);
    } else if id == 0xC9 && 0x13 <= rev && rev <= 0x13 {
        assert(l[5] == (0xC9u8, 0x13u8, 0x13u8, "NCT6792D-A"@, 6usize) && l[5].0 == id && l[5].1 <= rev <= l[5].2);
    } else if id == 0xD1 && 0x21 <= rev && rev <= 0x21 {
        assert(l[6] == (0xD1u8, 0x21u8, 0x21u8, "NCT6793D"@, 6usize) && l[6].0 == id && l[6].1 <= rev <= l[6].2);
    } else if id == 0xD3 && 0x52 <= rev && rev <= 0x52 {
        assert(l[7] == (0xD3u8, 0x52u8, 0x52u8, "NCT6795D"@, 6usize) && l[7].0 == id && l[7].1 <= rev <= l[7].2);
    } else if id == 0xD4 && 0x23 <= rev && rev <= 0x23 {
        assert(l[8] == (0xD4u8, 0x23u8, 0x23u8, "NCT6796D"@, 6usize) && l[8].0 == id && l[8].1 <= rev <= l[8].2);
    } else if id == 0xD4 && 0x2A <= rev && rev <= 0x2A {
        assert(l[9] == (0xD4u8, 0x2Au8, 0x2Au8, "NCT6796D-R"@, 7usize) && l[9].0 == id && l[9].1 <= rev <= l[9].2);
    } else if id == 0xD4 && 0x51 <= rev && rev <= 0x51 {
        assert(l[10] == (0xD4u8, 0x51u8, 0x51u8, "NCT6797D"@, 7usize) && l[10].0 == id && l[10].1 <= rev <= l[10].2);
    } else if id == 0xD4 && 0x2B <= rev && rev <= 0x2B {
        assert(l[11] == (0xD4u8, 0x2Bu8, 0x2Bu8, "NCT6798D"@, 7usize) && l[11].0 == id && l[11].1 <= rev <= l[11].2);
    } else if id == 0xD4 && 0x40 <= rev && rev <= 0x41 {
        assert(l[12] == (0xD4u8, 0x40u8, 0x41u8, "NCT6686D"@, 7usize) && l[12].0 == id && l[12].1 <= rev <= l[12].2);
    } else if id == 0xD8 && 0x02 <= rev && rev <= 0x02 {
        assert(l[13] == (0xD8u8, 0x02u8, 0x02u8, "NCT6799D"@, 7usize) && l[13].0 == id && l[13].1 <= rev <= l[13].2);
    }
}

/// ITE identification recognizes exactly the chip IDs of [`ite_chips`],
/// with their names and fan counts.
pub proof fn lemma_ite_table_is_the_chip_list(i: int, id: u16)
    ensures
        ({
            let l = ite_chips();
            0 <= i < l.len() && l[i].0 == id ==> ite_table(id) == Some((l[i].1, l[i].2))
        }),
        ite_table(id) is Some ==> exists|j: int| 0 <= j < ite_chips().len() && #[trigger] ite_chips()[j].0 == id,
{
    let l = ite_chips();
    if id == 0x8688 {
        assert(l[0] == (0x8688u16, "IT8688E"@, 6usize) && l[0].0 == id);
    }
    if id == 0x8792 {
        assert(l[1] == (0x8792u16, "IT8792E"@, 3usize) && l[1].0 == id);
    }
    if id == 0x8733 {
        assert(l[2] == (0x8733u16, "IT8792E"@, 3usize) && l[2].0 == id);
    }
    if id == 0x8695 {
        assert(l[3] == (0x8695u16, "IT87952E"@, 3usize) && l[3].0 == id);
    }
    if id == 0x8628 {
        assert(l[4] == (0x8628u16, "IT87xx"@, 5usize) && l[4].0 == id);
    }
    if id == 0x8631 {
        assert(l[5] == (0x8631u16, "IT87xx"@, 5usize) && l[5].0 == id);
    }
    if id == 0x8665 {
        assert(l[6] == (0x8665u16, "IT87xx"@, 5usize) && l[6].0 == id);
    }
    if id == 0x8686 {
        assert(l[7] == (0x8686u16, "IT87xx"@, 5usize) && l[7].0 == id);
    }
    if id == 0x8689 {
        assert(l[8] == (0x8689u16, "IT87xx"@, 5usize) && l[8].0 == id);
    }
    if id == 0x8696 {
        assert(l[9] == (0x8696u16, "IT87xx"@, 5usize) && l[9].0 == id);
    }
    if id == 0x8728 {
        assert(l[10] == (0x8728u16, "IT87xx"@, 5usize) && l[10].0 == id);
    }
    if id == 0x8613 {
        assert(l[11] == (0x8613u16, "IT87xx"@, 3usize) && l[11].0 == id);
    }
    if id == 0x8620 {
        assert(l[12] == (0x8620u16, "IT87xx"@, 3usize) && l[12].0 == id);
    }
    if id == 0x8625 {
        assert(l[13] == (0x8625u16, "IT87xx"@, 3usize) && l[13].0 == id);
    }
    if id == 0x8638 {
        assert(l[14] == (0x8638u16, "IT87xx"@, 3usize) && l[14].0 == id);
    }
    if id == 0x8655 {
        assert(l[15] == (0x8655u16, "IT87xx"@, 3usize) && l[15].0 == id);
    }
    if id == 0x8705 {
        assert(l[16] == (0x8705u16, "IT87xx"@, 3usize) && l[16].0 == id);
    }
    if id == 0x8712 {
        assert(l[17] == (0x8712u16, "IT87xx"@, 3usize) && l[17].0 == id);
    }
    if id == 0x8716 {
        assert(l[18] == (0x8716u16, "IT87xx"@, 3usize) && l[18].0 == id);
    }
    if id == 0x8718 {
        assert(l[19] == (0x8718u16, "IT87xx"@, 3usize) && l[19].0 == id);
    }
    if id == 0x8720 {
        assert(l[20] == (0x8720u16, "IT87xx"@, 3usize) && l[20].0 == id);
    }
    if id == 0x8721 {
        assert(l[21] == (0x8721u16, "IT87xx"@, 3usize) && l[21].0 == id);
    }
    if id == 0x8726 {
        assert(l[22] == (0x8726u16, "IT87xx"@, 3usize) && l[22].0 == id);
    }
    if id == 0x8771 {
        assert(l[23] == (0x8771u16, "IT87xx"@, 3usize) && l[23].0 == id);
    }
    if id == 0x8772 {
        assert(l[24] == (0x8772u16, "IT87xx"@, 3usize) && l[24].0 == id);
    }
    if id == 0x8790 {
        assert(l[25] == (0x8790u16, "IT87xx"@, 3usize) && l[25].0 == id);
    }
}

/// Views the name of an identification result.
pub open spec fn ident_view(r: Option<(&'static str, usize)>) -> Option<(Seq<char>, usize)> {
    match r {
        Some((n, f)) => Some((n@, f)),
        None => None,
    }
}

/// Nuvoton/Fintek chip identification from the PNP `(id, rev)` bytes.
pub fn nct_ident(id: u8, rev: u8) -> (r: Option<(&'static str, usize)>)
    ensures
        ident_view(r) == nct_table(id, rev),
{
    if id == 0xB4 && rev >= 0x70 {
        Some(("NCT6771F", 4))
    } else if id == 0xC3 && rev >= 0x30 {
        Some(("NCT6776F", 5))
    } else if id == 0xC5 && rev >= 0x60 {
        Some(("NCT6779D", 5))
    } else if id == 0xC8 && rev == 0x03 {
        Some(("NCT6791D", 6))
    } else if id == 0xC9 && rev == 0x11 {
        Some(("NCT6792D", 6))
    } else if id == 0xC9 && rev == 0x13 {
        Some(("NCT6792D-A", 6))
    } else if id == 0xD1 && rev == 0x21 {
        Some(("NCT6793D", 6))
    } else if id == 0xD3 && rev == 0x52 {
        Some(("NCT6795D", 6))
    } else if id == 0xD4 && rev == 0x23 {
        Some(("NCT6796D", 6))
    } else if id == 0xD4 && rev == 0x2A {
        Some(("NCT6796D-R", 7))
    } else if id == 0xD4 && rev == 0x51 {
        Some(("NCT6797D", 7))
    } else if id == 0xD4 && rev == 0x2B {
        Some(("NCT6798D", 7))
    } else if id == 0xD4 && (rev == 0x40 || rev == 0x41) {
        Some(("NCT6686D", 7))
    } else if id == 0xD8 && rev == 0x02 {
        Some(("NCT6799D", 7))
    } else {
        None
    }
}

/// ITE chip identification from the 16-bit PNP chip ID.
pub fn ite_ident(id: u16) -> (r: Option<(&'static str, usize)>)
    ensures
        ident_view(r) == ite_table(id),
{
    if id == 0x8688 {
        Some(("IT8688E", 6))
    } else if id == 0x8792 || id == 0x8733 {
        Some(("IT8792E", 3))
    } else if id == 0x8695 {
        Some(("IT87952E", 3))
    } else if id == 0x8628 || id == 0x8631 || id == 0x8665 || id == 0x8686 || id == 0x8689
        || id == 0x8696 || id == 0x8728 {
        Some(("IT87xx", 5))
    } else if id == 0x8613 || id == 0x8620 || id == 0x8625 || id == 0x8638 || id == 0x8655
        || id == 0x8705 || id == 0x8712 || id == 0x8716 || id == 0x8718 || id == 0x8720
        || id == 0x8721 || id == 0x8726 || id == 0x8771 || id == 0x8772 || id == 0x8790 {
        Some(("IT87xx", 3))
    } else {
        None
    }
}

/// RPM for a Nuvoton 13-bit tachometer count: `Some(0)` when stalled
/// (count saturated), `None` when the count is implausibly small.
pub open spec fn nct_rpm_spec(count: u32) -> Option<u32> {
    if count >= 0x1FFF {
        Some(0)
    } else if count >= 0x15 {
        Some((1_350_000int / count as int) as u32)
    } else {
        None
    }
}

/// RPM for an ITE 16-bit tachometer reading: `None` when implausibly
/// small, `Some(0)` when saturated.
pub open spec fn ite_rpm_spec(v: u32) -> Option<u32> {
    if v <= 0x3F {
        None
    } else if v < 0xFFFF {
        Some((1_350_000int / (v as int * 2)) as u32)
    } else {
        Some(0)
    }
}

/// Nuvoton 13-bit count to RPM.
pub fn nct_rpm(count: u32) -> (r: Option<u32>)
    ensures
        r == nct_rpm_spec(count),
{
    if count >= 0x1FFF {
        Some(0)
    } else if count >= 0x15 {
        Some(1_350_000 / count)
    } else {
        None
    }
}

/// ITE 16-bit tachometer to RPM.
pub fn ite_rpm(v: u32) -> (r: Option<u32>)
    ensures
        r == ite_rpm_spec(v),
{
    if v <= 0x3F {
        None
    } else if v < 0xFFFF {
        Some(1_350_000 / (v * 2))
    } else {
        Some(0)
    }
}

/// A decoded RPM never exceeds what the smallest accepted count gives.
pub proof fn lemma_rpm_bounds(count: u32)
    ensures
        nct_rpm_spec(count) matches Some(r) ==> r <= 1_350_000int / 0x15,
        ite_rpm_spec(count) matches Some(r) ==> r <= 1_350_000int / 0x80,
{
    if 0x15 <= count < 0x1FFF {
        assert(1_350_000int / (count as int) <= 1_350_000int / 0x15) by (nonlinear_arith)
            requires count >= 0x15;
    }
    if 0x3F < count < 0xFFFF {
        assert(1_350_000int / (count as int * 2) <= 1_350_000int / 0x80) by (nonlinear_arith)
            requires count >= 0x40;
    }
}

/// Tachometer decoding: a Nuvoton count `c` of a turning fan is the
/// number of 1.35 MHz ticks per revolution, so its speed is the whole
/// number of revolutions per minute that `c` ticks fit into 1 350 000; a
/// saturated count (`0x1FFF` or more) is a stopped fan and a count below
/// `0x15` is no reading. An ITE reading `v` counts ticks per half
/// revolution: its speed is the whole part of 1 350 000 / (2 `v`), a
/// saturated reading (`0xFFFF`) is a stopped fan, and a reading of `0x3F`
/// or less is no reading. Larger counts never mean a faster fan.
pub proof fn lemma_tach_decoding(c: u32, c2: u32)
    ensures
        0x15 <= c < 0x1FFF ==> (nct_rpm_spec(c) matches Some(r) && r * c <= 1_350_000 < (r + 1) * c),
        c >= 0x1FFF ==> nct_rpm_spec(c) == Some(0u32),
        c < 0x15 ==> nct_rpm_spec(c) is None,
        0x3F < c < 0xFFFF ==> (ite_rpm_spec(c) matches Some(r) && r * (2 * c) <= 1_350_000 < (r + 1) * (2 * c)),
        c == 0xFFFF ==> ite_rpm_spec(c) == Some(0u32),
        c <= 0x3F ==> ite_rpm_spec(c) is None,
        0x15 <= c <= c2 < 0x1FFF ==> nct_rpm_spec(c2).unwrap() <= nct_rpm_spec(c).unwrap(),
        0x3F < c <= c2 < 0xFFFF ==> ite_rpm_spec(c2).unwrap() <= ite_rpm_spec(c).unwrap(),
{
    if 0x15 <= c < 0x1FFF {
        let r = 1_350_000int / (c as int);
        assert(r * c <= 1_350_000 < (r + 1) * c) by (nonlinear_arith)
            requires r == 1_350_000int / (c as int), c >= 1;
        assert(0 <= r <= u32::MAX) by (nonlinear_arith)
            requires r == 1_350_000int / (c as int), c >= 1;
    }
    if 0x3F < c < 0xFFFF {
        let r = 1_350_000int / (c as int * 2);
        assert(r * (2 * c) <= 1_350_000 < (r + 1) * (2 * c)) by (nonlinear_arith)
            requires r == 1_350_000int / (c as int * 2), c >= 1;
        assert(0 <= r <= u32::MAX) by (nonlinear_arith)
            requires r == 1_350_000int / (c as int * 2), c >= 1;
    }
    if 0x15 <= c <= c2 < 0x1FFF {
        assert(1_350_000int / (c2 as int) <= 1_350_000int / (c as int)) by (nonlinear_arith)
            requires 1 <= c <= c2;
    }
    if 0x3F < c <= c2 < 0xFFFF {
        assert(1_350_000int / (c2 as int * 2) <= 1_350_000int / (c as int * 2)) by (nonlinear_arith)
            requires 1 <= c <= c2;
    }
}

/// A detected hardware-monitor chip and the I/O base of its registers.
pub enum Chip {
    Nct { base: u16, fans: usize, name: &'static str },
    Ite { base: u16, fans: usize, name: &'static str },
}

/// A plausible hardware-monitor I/O base: the two PNP reads agree, it is
/// above the legacy range and it is 8-aligned within the low 4 KiB.
pub open spec fn valid_base(base: u16, verify: u16) -> bool {
    base == verify && base >= 0x100 && (base & 0xF007) == 0
}

impl Chip {
    /// The chip is one of the known table entries and its base is plausible.
    pub open spec fn known(self) -> bool {
        match self {
            Chip::Nct { base, fans, name } => {
                &&& valid_base(base, base)
                &&& exists|id: u8, rev: u8| #[trigger] nct_table(id, rev) == Some((name@, fans))
            },
            Chip::Ite { base, fans, name } => {
                &&& valid_base(base, base)
                &&& exists|id: u16| #[trigger] ite_table(id) == Some((name@, fans))
            },
        }
    }

    pub open spec fn chip_name(self) -> Seq<char> {
        match self {
            Chip::Nct { name, .. } => name@,
            Chip::Ite { name, .. } => name@,
        }
    }
}

/// A Nuvoton reading: the decoding of some 13-bit count.
pub open spec fn nct_reading(r: Option<u32>) -> bool {
    exists|c: u32| c <= 0x1FFF && r == nct_rpm_spec(c)
}

/// An ITE reading: absent, or the decoding of some 16-bit value.
pub open spec fn ite_reading(r: Option<u32>) -> bool {
    r is None || exists|v: u32| v <= 0xFFFF && r == ite_rpm_spec(v)
}

/// Fan counts of the tables never exceed 7.
proof fn lemma_table_fans(name: Seq<char>, fans: usize)
    ensures
        (exists|id: u8, rev: u8| #[trigger] nct_table(id, rev) == Some((name, fans))) ==> 4 <= fans <= 7,
        (exists|id: u16| #[trigger] ite_table(id) == Some((name, fans))) ==> 3 <= fans <= 6,
{
}

/// The byte a read gives, a failed read counting as `0xFF` (floating bus).
pub open spec fn byte_or_ff(v: Option<u8>) -> u8 {
    match v {
        Some(b) => b,
        None => 0xFF,
    }
}

/// `b` is a byte that a read of `port` right after `writes` can give
/// through `io`.
pub open spec fn answered<P: PortIo>(io: P, writes: Seq<(u16, u8)>, port: u16, b: u8) -> bool {
    exists|v: Option<u8>| #[trigger] io.answers(writes, port, v) && b == byte_or_ff(v)
}

/// Selection of PNP configuration register `reg` through index port `port`.
pub open spec fn pnp_select(port: u16, reg: u8) -> Seq<(u16, u8)> {
    seq![(port, reg)]
}

/// `b` can be read from PNP configuration register `reg` of index port
/// `port` (selected there, read at the data port `port + 1`).
pub open spec fn conf_answered<P: PortIo>(io: P, port: u16, reg: u8, b: u8) -> bool {
    answered(io, pnp_select(port, reg), (port + 1) as u16, b)
}

/// The big-endian word of two bytes.
pub open spec fn word(hi: u8, lo: u8) -> u16 {
    (hi as int * 256 + lo as int) as u16
}

/// `w` can be read from the PNP configuration registers `reg` (high byte)
/// and `reg + 1` (low byte) of index port `port`.
pub open spec fn conf_word_answered<P: PortIo>(io: P, port: u16, reg: u8, w: u16) -> bool {
    exists|hi: u8, lo: u8|
        conf_answered(io, port, reg, hi) && conf_answered(io, port, (reg + 1) as u8, lo) && w == #[trigger] word(hi, lo)
}

/// The Nuvoton pass at PNP port `port` can read an ID (register 0x20) and
/// revision (register 0x21) that the table knows as `(name, fans)`.
pub open spec fn nct_seen<P: PortIo>(io: P, port: u16, name: Seq<char>, fans: usize) -> bool {
    exists|id: u8, rev: u8|
        conf_answered(io, port, 0x20, id) && conf_answered(io, port, 0x21, rev) && #[trigger] nct_table(id, rev)
            == Some((name, fans))
}

/// The Nuvoton pass at `port` can read an ID and revision that the table
/// does not know.
pub open spec fn nct_unknown<P: PortIo>(io: P, port: u16) -> bool {
    exists|id: u8, rev: u8|
        conf_answered(io, port, 0x20, id) && conf_answered(io, port, 0x21, rev) && #[trigger] nct_table(id, rev)
            is None
}

/// The ITE pass at `port` can read a chip ID word (registers 0x20 and
/// 0x21) that the table knows as `(name, fans)`.
pub open spec fn ite_seen<P: PortIo>(io: P, port: u16, name: Seq<char>, fans: usize) -> bool {
    exists|hi: u8, lo: u8|
        conf_answered(io, port, 0x20, hi) && conf_answered(io, port, 0x21, lo) && #[trigger] ite_table(word(hi, lo))
            == Some((name, fans))
}

/// The ITE pass at `port` can read a chip ID word that the table does not
/// know.
pub open spec fn ite_unknown<P: PortIo>(io: P, port: u16) -> bool {
    exists|hi: u8, lo: u8|
        conf_answered(io, port, 0x20, hi) && conf_answered(io, port, 0x21, lo) && #[trigger] ite_table(word(hi, lo))
            is None
}

/// Two reads of the base registers (0x60, 0x61) at `port` that can come
/// back and fail validation.
pub open spec fn base_refused<P: PortIo>(io: P, port: u16) -> bool {
    exists|b: u16, v: u16|
        conf_word_answered(io, port, 0x60, b) && conf_word_answered(io, port, 0x60, v) && !#[trigger] valid_base(b, v)
}

/// `chip` is what probing PNP port `port` can find: a known Nuvoton chip,
/// or (no Nuvoton chip answering) a known ITE chip, with a base read from
/// registers 0x60 and 0x61 there that passes validation.
pub open spec fn found_at<P: PortIo>(io: P, port: u16, chip: Chip) -> bool {
    match chip {
        Chip::Nct { base, fans, name } => nct_seen(io, port, name@, fans) && conf_word_answered(io, port, 0x60, base)
            && valid_base(base, base),
        Chip::Ite { base, fans, name } => nct_unknown(io, port) && ite_seen(io, port, name@, fans)
            && conf_word_answered(io, port, 0x60, base) && valid_base(base, base),
    }
}

/// Probing PNP port `port` can find no known chip.
pub open spec fn nothing_at<P: PortIo>(io: P, port: u16) -> bool {
    nct_unknown(io, port) && ite_unknown(io, port)
}

/// Probing PNP port `port` can find a known chip whose base fails
/// validation.
pub open spec fn refused_at<P: PortIo>(io: P, port: u16) -> bool {
    ||| (exists|name: Seq<char>, fans: usize| nct_seen(io, port, name, fans)) && base_refused(io, port)
    ||| nct_unknown(io, port) && (exists|name: Seq<char>, fans: usize| ite_seen(io, port, name, fans))
        && base_refused(io, port)
}

/// Selection of Nuvoton register `addr` of the hardware monitor at `base`:
/// bank-select index 0x4E and the bank (high byte of `addr`) through the
/// index and data ports, then the register (low byte) through the index
/// port `base + 5`.
pub open spec fn nct_select(base: u16, addr: u16) -> Seq<(u16, u8)> {
    seq![((base + 5) as u16, 0x4Eu8), ((base + 6) as u16, (addr / 256) as u8), ((base + 5) as u16, (addr % 256) as u8)]
}

/// `b` can be read from Nuvoton register `addr` (at the data port
/// `base + 6`, right after its selection).
pub open spec fn nct_reg<P: PortIo>(io: P, base: u16, addr: u16, b: u8) -> bool {
    answered(io, nct_select(base, addr), (base + 6) as u16, b)
}

/// `b` can be read from ITE environment-controller register `reg` (selected
/// at `base + 5`, read at `base + 6`).
pub open spec fn ite_reg<P: PortIo>(io: P, base: u16, reg: u8, b: u8) -> bool {
    answered(io, seq![((base + 5) as u16, reg)], (base + 6) as u16, b)
}

/// Count register of Nuvoton fan `i` (high byte; the low bits follow at
/// `+1`).
pub open spec fn nct_fan_reg(i: int) -> u16 {
    if i == 0 {
        0x4B0
    } else if i == 1 {
        0x4B2
    } else if i == 2 {
        0x4B4
    } else if i == 3 {
        0x4B6
    } else if i == 4 {
        0x4B8
    } else if i == 5 {
        0x4BA
    } else {
        0x4CC
    }
}

/// Tachometer low-byte register of ITE fan `i`.
pub open spec fn ite_fan_reg(i: int) -> u8 {
    if i == 0 {
        0x0D
    } else if i == 1 {
        0x0E
    } else if i == 2 {
        0x0F
    } else if i == 3 {
        0x80
    } else if i == 4 {
        0x82
    } else {
        0x4C
    }
}

/// Tachometer high-byte (extended) register of ITE fan `i`.
pub open spec fn ite_fan_ext_reg(i: int) -> u8 {
    if i == 0 {
        0x18
    } else if i == 1 {
        0x19
    } else if i == 2 {
        0x1A
    } else if i == 3 {
        0x81
    } else if i == 4 {
        0x83
    } else {
        0x4D
    }
}

/// The 13-bit Nuvoton tachometer count of a high and a low byte.
pub open spec fn nct_count(hi: u8, lo: u8) -> u32 {
    (hi as int * 32 + lo as int % 32) as u32
}

/// `r` decodes the count of Nuvoton fan `i`: its high byte read from
/// register [`nct_fan_reg`]`(i)`, its low bits from the register after it.
pub open spec fn nct_tach<P: PortIo>(io: P, base: u16, i: int, r: Option<u32>) -> bool {
    exists|hi: u8, lo: u8|
        nct_reg(io, base, nct_fan_reg(i), hi) && nct_reg(io, base, (nct_fan_reg(i) + 1) as u16, lo) && r
            == #[trigger] nct_rpm_spec(nct_count(hi, lo))
}

/// ITE fan `i` is in 16-bit mode by the enable byte `en` (fans 3 to 5
/// have their own bit; the others always are).
pub open spec fn ite_sixteen(i: int, en: u8) -> bool {
    if i == 2 {
        en & 0x10 != 0
    } else if i == 3 {
        en & 0x20 != 0
    } else if i == 4 {
        en & 0x04 != 0
    } else {
        true
    }
}

/// `r` decodes the 16-bit reading of ITE fan `i`: its low byte read from
/// register [`ite_fan_reg`]`(i)`, its high byte from
/// [`ite_fan_ext_reg`]`(i)`.
pub open spec fn ite_tach<P: PortIo>(io: P, base: u16, i: int, r: Option<u32>) -> bool {
    exists|hi: u8, lo: u8|
        ite_reg(io, base, ite_fan_reg(i), lo) && ite_reg(io, base, ite_fan_ext_reg(i), hi) && r
            == #[trigger] ite_rpm_spec(word(hi, lo) as u32)
}

/// SuperIO chip access through a port-I/O driver.
pub struct SuperIo<P: PortIo> {
    r0: P,
    chip: Chip,
}

/// Nuvoton fan count registers (high byte; the low bits follow at `+1`).
pub const NCT_FAN_REGS: [u16; 7] = [0x4B0, 0x4B2, 0x4B4, 0x4B6, 0x4B8, 0x4BA, 0x4CC];

/// ITE fan tachometer low-byte registers.
pub const ITE_FAN_REGS: [u8; 6] = [0x0D, 0x0E, 0x0F, 0x80, 0x82, 0x4C];

/// ITE fan tachometer high-byte (extended) registers.
pub const ITE_FAN_EXT_REGS: [u8; 6] = [0x18, 0x19, 0x1A, 0x81, 0x83, 0x4D];

impl<P: PortIo> SuperIo<P> {
    /// The chip found at detection.
    pub closed spec fn chip(&self) -> Chip {
        self.chip
    }

    /// The driver the chip is read through.
    pub closed spec fn io(&self) -> P {
        self.r0
    }

    pub closed spec fn wf(&self) -> bool {
        self.chip.known()
    }

    fn outb(&self, port: u16, val: u8) {
        self.r0.write_io_byte(port, val);
    }

    /// Port read right after the register-selecting `writes`; a failed read
    /// gives `0xFF` (floating bus).
    fn read_byte(&self, writes: &[(u16, u8)], port: u16) -> (r: u8)
        ensures
            answered(self.r0, writes@, port, r),
    {
        let v = self.r0.read_after(writes, port);
        let r = match v {
            Some(b) => b,
            None => 0xFF,
        };
        assert(self.r0.answers(writes@, port, v) && r == byte_or_ff(v));
        r
    }

    /// PNP configuration byte read: register `reg` selected through the
    /// index port, the byte read at the data port.
    fn conf(&self, port: u16, reg: u8) -> (r: u8)
        requires
            port < u16::MAX,
        ensures
            conf_answered(self.r0, port, reg, r),
    {
        let mut sel: Vec<(u16, u8)> = Vec::new();
        sel.push((port, reg));
        assert(sel@ == pnp_select(port, reg));
        self.read_byte(sel.as_slice(), port + 1)
    }

    /// PNP configuration word read (big-endian): registers `reg` (high
    /// byte) and `reg + 1`.
    fn conf_word(&self, port: u16, reg: u8) -> (r: u16)
        requires
            port < u16::MAX,
            reg < u8::MAX,
        ensures
            conf_word_answered(self.r0, port, reg, r),
    {
        let h = self.conf(port, reg);
        let l = self.conf(port, reg + 1);
        let hi = h as u16;
        let lo = l as u16;
        let r = (hi << 8u16) | lo;
        assert(r == word(h, l)) by {
            assert((((h as u16) << 8u16) | (l as u16)) == (h as u16) * 256 + (l as u16)) by (bit_vector);
        }
        assert(conf_answered(self.r0, port, reg, h) && conf_answered(self.r0, port, (reg + 1) as u8, l) && r == word(
            h,
            l,
        ));
        r
    }

    /// Probes both PNP ports for a supported chip (Nuvoton first, then
    /// ITE) and validates its hardware-monitor base. `None` when no chip
    /// is recognized or its base is implausible.
    pub fn detect_with(r0: P) -> (r: Option<Self>)
        ensures
            r matches Some(s) ==> s.wf(),
            match r {
                Some(s) => s.io() == r0 && (found_at(r0, 0x2E, s.chip()) || (nothing_at(r0, 0x2E) && found_at(
                    r0,
                    0x4E,
                    s.chip(),
                ))),
                None => refused_at(r0, 0x2E) || (nothing_at(r0, 0x2E) && (refused_at(r0, 0x4E) || nothing_at(
                    r0,
                    0x4E,
                ))),
            },
    {
        let ghost g = r0;
        let mut io = SuperIo { r0, chip: Chip::Nct { base: 0, fans: 0, name: "" } };
        let mut k: usize = 0;
        while k < 2
            invariant
                k <= 2,
                io.r0 == g,
                g == r0,
                k >= 1 ==> nothing_at(g, 0x2E),
                k >= 2 ==> nothing_at(g, 0x4E),
            decreases 2 - k,
        {
            let port = REG_PORTS[k];
            assert(port == (if k == 0 { 0x2Eu16 } else { 0x4Eu16 }));
            // Nuvoton/Fintek/Winbond enter sequence.
            io.outb(port, 0x87);
            io.outb(port, 0x87);
            let id = io.conf(port, 0x20);
            let rev = io.conf(port, 0x21);
            io.outb(port, 0xAA);
            match nct_ident(id, rev) {
                Some((name, fans)) => {
                    assert(nct_table(id, rev) == Some((name@, fans)));
                    assert(nct_seen(g, port, name@, fans));
                    let r = io.with_nct(port, name, fans);
                    proof {
                        let (b, v) = choose|b: u16, v: u16|
                            conf_word_answered(g, port, 0x60, b) && conf_word_answered(g, port, 0x60, v) && match r {
                                Some(s) => #[trigger] valid_base(b, v) && s.chip() == (Chip::Nct { base: b, fans, name })
                                    && s.io() == g,
                                None => !valid_base(b, v),
                            };
                        if r is Some {
                            assert(found_at(g, port, r->Some_0.chip()));
                        } else {
                            assert(base_refused(g, port));
                            assert(refused_at(g, port));
                        }
                    }
                    return r;
                },
                None => {},
            }
            assert(nct_table(id, rev) is None);
            assert(nct_unknown(g, port));
            // ITE enter sequence.
            io.outb(port, 0x87);
            io.outb(port, 0x01);
            io.outb(port, 0x55);
            io.outb(port, if port == 0x4E { 0xAA } else { 0x55 });
            let hi = io.conf(port, 0x20);
            let lo = io.conf(port, 0x21);
            let id16 = ((hi as u16) << 8u16) | lo as u16;
            assert(id16 == word(hi, lo)) by {
                assert((((hi as u16) << 8u16) | (lo as u16)) == (hi as u16) * 256 + (lo as u16)) by (bit_vector);
            }
            if port != 0x4E {
                // ITE exit (the second SIO is never exited).
                io.outb(port, 0x02);
                io.outb(port + 1, 0x02);
            }
            match ite_ident(id16) {
                Some((name, fans)) => {
                    assert(ite_table(id16) == Some((name@, fans)));
                    assert(ite_seen(g, port, name@, fans));
                    let r = io.with_ite(port, name, fans);
                    proof {
                        let (b, v) = choose|b: u16, v: u16|
                            conf_word_answered(g, port, 0x60, b) && conf_word_answered(g, port, 0x60, v) && match r {
                                Some(s) => #[trigger] valid_base(b, v) && s.chip() == (Chip::Ite { base: b, fans, name })
                                    && s.io() == g,
                                None => !valid_base(b, v),
                            };
                        if r is Some {
                            assert(found_at(g, port, r->Some_0.chip()));
                        } else {
                            assert(base_refused(g, port));
                            assert(refused_at(g, port));
                        }
                    }
                    return r;
                },
                None => {},
            }
            assert(ite_table(word(hi, lo)) is None);
            assert(ite_unknown(g, port));
            assert(nothing_at(g, port));
            io.outb(port, 0xAA);
            k = k + 1;
        }
        None
    }

    /// Selects the Nuvoton hardware monitor at PNP port `port` and reads
    /// its base twice: the chip is kept with that base when the two reads
    /// pass validation, else nothing is found.
    fn with_nct(self, port: u16, name: &'static str, fans: usize) -> (r: Option<Self>)
        requires
            port == 0x2E || port == 0x4E,
            exists|id: u8, rev: u8| #[trigger] nct_table(id, rev) == Some((name@, fans)),
        ensures
            r matches Some(s) ==> s.wf(),
            exists|b: u16, v: u16|
                conf_word_answered(self.r0, port, 0x60, b) && conf_word_answered(self.r0, port, 0x60, v) && match r {
                    Some(s) => #[trigger] valid_base(b, v) && s.chip() == (Chip::Nct { base: b, fans, name }) && s.io()
                        == self.r0,
                    None => !valid_base(b, v),
                },
    {
        // Re-enter and select the HWM logical device 0x0B.
        self.outb(port, 0x87);
        self.outb(port, 0x87);
        self.outb(port, 0x07);
        self.outb(port + 1, 0x0B);
        let base = self.conf_word(port, 0x60);
        self.r0.settle();
        let verify = self.conf_word(port, 0x60);
        // Clear the HWM I/O space lock of 6791D+ firmware.
        let lock = self.conf(port, 0x28);
        if lock & 0x10 != 0 {
            self.outb(port, 0x28);
            self.outb(port + 1, lock & !0x10u8);
        }
        self.outb(port, 0xAA);
        assert(conf_word_answered(self.r0, port, 0x60, base) && conf_word_answered(self.r0, port, 0x60, verify));
        if base != verify || base < 0x100 || (base & 0xF007) != 0 {
            assert(!valid_base(base, verify));
            return None;
        }
        let r = Some(SuperIo { r0: self.r0, chip: Chip::Nct { base, fans, name } });
        assert(valid_base(base, verify));
        r
    }

    /// Selects the ITE environment controller at PNP port `port` and reads
    /// its base twice: the chip is kept with that base when the two reads
    /// pass validation, else nothing is found.
    fn with_ite(self, port: u16, name: &'static str, fans: usize) -> (r: Option<Self>)
        requires
            port == 0x2E || port == 0x4E,
            exists|id: u16| #[trigger] ite_table(id) == Some((name@, fans)),
        ensures
            r matches Some(s) ==> s.wf(),
            exists|b: u16, v: u16|
                conf_word_answered(self.r0, port, 0x60, b) && conf_word_answered(self.r0, port, 0x60, v) && match r {
                    Some(s) => #[trigger] valid_base(b, v) && s.chip() == (Chip::Ite { base: b, fans, name }) && s.io()
                        == self.r0,
                    None => !valid_base(b, v),
                },
    {
        // Re-enter and select the ENV logical device 0x04.
        self.outb(port, 0x87);
        self.outb(port, 0x01);
        self.outb(port, 0x55);
        self.outb(port, if port == 0x4E { 0xAA } else { 0x55 });
        self.outb(port, 0x07);
        self.outb(port + 1, 0x04);
        let base = self.conf_word(port, 0x60);
        self.r0.settle();
        let verify = self.conf_word(port, 0x60);
        if port != 0x4E {
            self.outb(port, 0x02);
            self.outb(port + 1, 0x02);
        }
        assert(conf_word_answered(self.r0, port, 0x60, base) && conf_word_answered(self.r0, port, 0x60, verify));
        if base < 0x100 || base != verify || (base & 0xF007) != 0 {
            assert(!valid_base(base, verify));
            return None;
        }
        let r = Some(SuperIo { r0: self.r0, chip: Chip::Ite { base, fans, name } });
        assert(valid_base(base, verify));
        r
    }

    /// Banked Nuvoton read: bank select through the index port, bank
    /// number through the data port, then the register, read at the data
    /// port `base + 6`.
    fn nct_read(&self, base: u16, addr: u16) -> (r: u8)
        requires
            base & 0xF007 == 0,
        ensures
            nct_reg(self.r0, base, addr, r),
    {
        assert(base + 6 <= u16::MAX) by (bit_vector)
            requires base & 0xF007 == 0;
        assert((addr >> 8u16) as u8 == (addr / 256) as u8 && (addr & 0xFF) as u8 == (addr % 256) as u8)
            by (bit_vector);
        let mut sel: Vec<(u16, u8)> = Vec::new();
        sel.push((base + 5, 0x4E));
        sel.push((base + 6, (addr >> 8u16) as u8));
        sel.push((base + 5, (addr & 0xFF) as u8));
        assert(sel@ == nct_select(base, addr));
        self.read_byte(sel.as_slice(), base + 6)
    }

    /// ITE environment-controller register read: the register selected at
    /// `base + 5`, the byte read at `base + 6`.
    fn ite_read(&self, base: u16, reg: u8) -> (r: u8)
        requires
            base & 0xF007 == 0,
        ensures
            ite_reg(self.r0, base, reg, r),
    {
        assert(base + 6 <= u16::MAX) by (bit_vector)
            requires base & 0xF007 == 0;
        let mut sel: Vec<(u16, u8)> = Vec::new();
        sel.push((base + 5, reg));
        assert(sel@ == seq![((base + 5) as u16, reg)]);
        self.read_byte(sel.as_slice(), base + 6)
    }

    /// `rpms` is a possible result of [`Self::fan_rpms`] for this chip:
    /// entry `i` decodes what the tachometer registers of fan `i` can give.
    pub open spec fn readings_fit(&self, rpms: Seq<Option<u32>>) -> bool {
        &&& self.chip() matches Chip::Nct { fans, base, .. } ==> {
            &&& rpms.len() == fans
            &&& forall|i: int| 0 <= i < rpms.len() ==> nct_reading(#[trigger] rpms[i])
            &&& forall|i: int| 0 <= i < rpms.len() ==> nct_tach(self.io(), base, i, #[trigger] rpms[i])
        }
        &&& self.chip() matches Chip::Ite { fans, base, .. } ==> {
            &&& rpms.len() == (if fans < 6 { fans } else { 6 })
            &&& forall|i: int| 0 <= i < rpms.len() ==> ite_reading(#[trigger] rpms[i])
            &&& exists|en: u8|
                #[trigger] ite_reg(self.io(), base, 0x0C, en) && forall|i: int|
                    0 <= i < rpms.len() ==> if ite_sixteen(i, en) {
                        ite_tach(self.io(), base, i, #[trigger] rpms[i])
                    } else {
                        rpms[i] is None
                    }
        }
    }

    /// Speed of the CPU fan selected by `want` (`AUTO`, `fanN` or
    /// `chip/fanN`), read from the tachometers now.
    pub fn cpu_fan_rpm(&self, want: &str) -> (r: Option<u32>)
        requires
            self.wf(),
        ensures
            exists|rpms: Seq<Option<u32>>| self.readings_fit(rpms) && r == pick_fan_spec(rpms, want@),
    {
        let rpms = self.fan_rpms();
        let r = pick_fan(&rpms, want);
        assert(self.readings_fit(rpms@));
        r
    }

    /// All fan tachometers in RPM (`None` = invalid or not in 16-bit mode).
    /// Nuvoton: one entry per fan, decoded from a 13-bit count. ITE: up to
    /// six entries, decoded from a 16-bit reading when the fan is in
    /// 16-bit mode.
    pub fn fan_rpms(&self) -> (r: Vec<Option<u32>>)
        requires
            self.wf(),
        ensures
            self.chip() matches Chip::Nct { fans, .. } ==> {
                &&& r@.len() == fans
                &&& forall|i: int| 0 <= i < r@.len() ==> nct_reading(#[trigger] r@[i])
            },
            self.chip() matches Chip::Ite { fans, .. } ==> {
                &&& r@.len() == (if fans < 6 { fans } else { 6 })
                &&& forall|i: int| 0 <= i < r@.len() ==> ite_reading(#[trigger] r@[i])
            },
            self.readings_fit(r@),
    {
        let mut out: Vec<Option<u32>> = Vec::new();
        match &self.chip {
            Chip::Nct { base, fans, .. } => {
                let base = *base;
                let fans = *fans;
                proof { lemma_table_fans(self.chip.chip_name(), fans); }
                let mut i: usize = 0;
                while i < fans
                    invariant
                        fans <= 7,
                        base & 0xF007 == 0,
                        i <= fans,
                        out@.len() == i,
                        forall|j: int| 0 <= j < i ==> nct_reading(#[trigger] out@[j]),
                        forall|j: int| 0 <= j < i ==> nct_tach(self.r0, base, j, #[trigger] out@[j]),
                    decreases fans - i,
                {
                    let reg = NCT_FAN_REGS[i];
                    assert(reg == nct_fan_reg(i as int));
                    let h = self.nct_read(base, reg);
                    let l = self.nct_read(base, reg + 1);
                    let high = h as u32;
                    let low = l as u32;
                    let c = (high << 5u32) | (low & 0x1Fu32);
                    assert((high << 5u32) | (low & 0x1Fu32) <= 0x1FFF) by (bit_vector)
                        requires high <= 0xFF;
                    assert(c == nct_count(h, l)) by {
                        assert((((h as u32) << 5u32) | ((l as u32) & 0x1Fu32)) == (h as u32) * 32 + (l as u32) % 32)
                            by (bit_vector);
                    }
                    let ghost prev = out@;
                    out.push(nct_rpm(c));
                    assert(out@[i as int] == nct_rpm_spec(c));
                    assert(nct_reading(out@[i as int]));
                    assert(nct_tach(self.r0, base, i as int, out@[i as int]));
                    assert forall|j: int| 0 <= j < i + 1 implies nct_reading(#[trigger] out@[j]) && nct_tach(
                        self.r0,
                        base,
                        j,
                        out@[j],
                    ) by {
                        if j < i {
                            assert(out@[j] == prev[j]);
                        }
                    }
                    i = i + 1;
                }
                assert(self.readings_fit(out@));
            },
            Chip::Ite { base, fans, .. } => {
                let base = *base;
                let fans = *fans;
                let en = self.ite_read(base, 0x0C);
                let n = if fans < 6 { fans } else { 6 };
                let mut i: usize = 0;
                while i < n
                    invariant
                        n <= 6,
                        base & 0xF007 == 0,
                        i <= n,
                        out@.len() == i,
                        forall|j: int| 0 <= j < i ==> ite_reading(#[trigger] out@[j]),
                        ite_reg(self.r0, base, 0x0C, en),
                        forall|j: int| 0 <= j < i ==> if ite_sixteen(j, en) {
                            ite_tach(self.r0, base, j, #[trigger] out@[j])
                        } else {
                            out@[j] is None
                        },
                    decreases n - i,
                {
                    let ghost prev = out@;
                    let sixteen = if i == 2 {
                        en & 0x10 != 0
                    } else if i == 3 {
                        en & 0x20 != 0
                    } else if i == 4 {
                        en & 0x04 != 0
                    } else {
                        true
                    };
                    assert(sixteen == ite_sixteen(i as int, en));
                    if !sixteen {
                        out.push(None);
                    } else {
                        let lreg = ITE_FAN_REGS[i];
                        let hreg = ITE_FAN_EXT_REGS[i];
                        assert(lreg == ite_fan_reg(i as int) && hreg == ite_fan_ext_reg(i as int));
                        let l8 = self.ite_read(base, lreg);
                        let h8 = self.ite_read(base, hreg);
                        let lo = l8 as u32;
                        let hi = h8 as u32;
                        let v = (hi << 8u32) | lo;
                        assert((hi << 8u32) | lo <= 0xFFFF) by (bit_vector)
                            requires hi <= 0xFF, lo <= 0xFF;
                        assert(v == word(h8, l8) as u32) by {
                            assert((((h8 as u32) << 8u32) | (l8 as u32)) == (h8 as u32) * 256 + (l8 as u32))
                                by (bit_vector);
                        }
                        out.push(ite_rpm(v));
                        assert(out@[i as int] == ite_rpm_spec(v));
                        assert(ite_reading(out@[i as int]));
                        assert(ite_tach(self.r0, base, i as int, out@[i as int]));
                    }
                    assert forall|j: int| 0 <= j < i + 1 implies ite_reading(#[trigger] out@[j]) && (if ite_sixteen(
                        j,
                        en,
                    ) {
                        ite_tach(self.r0, base, j, out@[j])
                    } else {
                        out@[j] is None
                    }) by {
                        if j < i {
                            assert(out@[j] == prev[j]);
                        }
                    }
                    i = i + 1;
                }
                assert(ite_reg(self.io(), base, 0x0C, en));
                assert(self.readings_fit(out@));
            },
        }
        out
    }

    /// Name of the detected chip.
    pub fn chip_name(&self) -> (n: &'static str)
        ensures
            n@ == self.chip().chip_name(),
    {
        match &self.chip {
            Chip::Nct { name, .. } => name,
            Chip::Ite { name, .. } => name,
        }
    }
}

impl SuperIo<WinRing0> {
    /// Opens the WinRing0 driver and probes for a chip. Off Windows the
    /// driver cannot be opened, so nothing is ever detected.
    pub fn detect() -> (r: Option<Self>)
        ensures
            r is None,
    {
        match WinRing0::open() {
            Ok(r0) => Self::detect_with(r0),
            Err(_) => None,
        }
    }
}

} // verus!
