//! Canonical PCI INTx swizzle and PIRQ -> GSI routing.
//!
//! `pirq = (device + pin_index) & 3`, where `device` is the PCI slot number and
//! `pin_index` is 0..3 for INTA..INTD. The PIRQ index selects a platform GSI
//! from a caller-provided `pirq_to_gsi` table.

use vstd::prelude::*;

verus! {

/// Default Q35 APIC-mode PIRQ routing: PIRQ E-H go to dedicated IOAPIC GSIs 20-23,
/// which keeps PCI INTx out of the ISA range (GSI 1 and 12 belong to PS/2).
pub const DEFAULT_PIRQ_TO_GSI: [u32; 4] = [20, 21, 22, 23];

/// The PIRQ index that a device/pin pair swizzles to.
pub open spec fn spec_pirq_index(device: u8, pin_index: u8) -> u8 {
    ((device as int + pin_index as int) % 4) as u8
}

/// The legacy PIC IRQ that a Q35 APIC-window GSI is visible as, if any.
pub open spec fn spec_legacy_pic_irq(gsi: u32) -> Option<u8> {
    if 20 <= gsi <= 23 {
        Some((gsi - 10) as u8)
    } else {
        None
    }
}

/// The value for the config-space `Interrupt Line` register.
pub open spec fn spec_irq_line(pirq_to_gsi: Seq<u32>, device: u8, interrupt_pin_cfg: u8) -> u8 {
    if interrupt_pin_cfg == 0 {
        0xFF
    } else {
        let pin_index = ((interrupt_pin_cfg - 1) % 4) as u8;
        let gsi = pirq_to_gsi[spec_pirq_index(device, pin_index) as int];
        if gsi <= 0xFF {
            gsi as u8
        } else {
            0xFF
        }
    }
}

/// Translate Aero's Q35 APIC PCI window (GSI 20..=23) to its PIC compatibility IRQ (10..=13).
pub fn q35_legacy_pic_irq_for_gsi(gsi: u32) -> (irq: Option<u8>)
    ensures
        irq == spec_legacy_pic_irq(gsi),
{
    if gsi >= 20 && gsi <= 23 {
        Some((gsi - 20) as u8 + 10)
    } else {
        None
    }
}

/// Computes the PIRQ index (0 = A, 1 = B, 2 = C, 3 = D) for a device/pin pair.
pub fn pirq_index(device: u8, pin_index: u8) -> (pirq: u8)
    ensures
        pirq == spec_pirq_index(device, pin_index),
        pirq < 4,
{
    let r = device.wrapping_add(pin_index) & 0x03;
    assert(device.wrapping_add(pin_index) & 0x03 == ((device as int + pin_index as int) % 4) as u8)
        by (bit_vector);
    r
}

/// Returns the routed GSI for a device/pin pair.
pub fn gsi_for_intx(pirq_to_gsi: [u32; 4], device: u8, pin_index: u8) -> (gsi: u32)
    ensures
        gsi == pirq_to_gsi@[spec_pirq_index(device, pin_index) as int],
{
    pirq_to_gsi[pirq_index(device, pin_index) as usize]
}

/// Returns the value to program into the PCI config-space `Interrupt Line` register.
///
/// `interrupt_pin_cfg` is the `Interrupt Pin` register encoding: 0 = none, 1..4 = INTA#..INTD#.
/// Without a pin the conventional "unconnected" value 0xFF is returned, and so is it for a GSI
/// that does not fit the 8-bit register.
pub fn irq_line_for_intx(pirq_to_gsi: [u32; 4], device: u8, interrupt_pin_cfg: u8) -> (line: u8)
    ensures
        line == spec_irq_line(pirq_to_gsi@, device, interrupt_pin_cfg),
{
    if interrupt_pin_cfg == 0 {
        return 0xFF;
    }
    let pin_index = interrupt_pin_cfg.wrapping_sub(1) & 0x03;
    assert(interrupt_pin_cfg != 0 ==> interrupt_pin_cfg.wrapping_sub(1) & 0x03
        == ((interrupt_pin_cfg - 1) % 4) as u8) by (bit_vector);
    let gsi = gsi_for_intx(pirq_to_gsi, device, pin_index);
    if gsi <= 0xFF {
        gsi as u8
    } else {
        0xFF
    }
}

/// For a fixed device, the four interrupt pins land on four different PIRQs: the swizzle
/// spreads INTA..INTD of one slot over every PIRQ line.
pub proof fn lemma_swizzle_is_a_permutation(device: u8, pin_a: u8, pin_b: u8)
    requires
        pin_a < 4,
        pin_b < 4,
        pin_a != pin_b,
    ensures
        spec_pirq_index(device, pin_a) != spec_pirq_index(device, pin_b),
{
}

/// Moving to the next device slot rotates every pin to the next PIRQ.
pub proof fn lemma_swizzle_rotates_with_device(device: u8, pin_index: u8)
    requires
        device < 0xFF,
    ensures
        spec_pirq_index((device + 1) as u8, pin_index)
            == (spec_pirq_index(device, pin_index) + 1) % 4,
{
}

/// With the default Q35 table, every device/pin routes to a dedicated APIC GSI in 20..=23
/// that never collides with the PS/2 keyboard (1) or mouse (12), and that has a PIC
/// compatibility view.
pub proof fn lemma_default_routes_use_dedicated_gsis(device: u8, pin_index: u8)
    ensures
        ({
            let gsi = DEFAULT_PIRQ_TO_GSI@[spec_pirq_index(device, pin_index) as int];
            &&& 20 <= gsi <= 23
            &&& gsi != 1 && gsi != 12
            &&& spec_legacy_pic_irq(gsi) is Some
        }),
{
    assert(DEFAULT_PIRQ_TO_GSI@ =~= seq![20u32, 21, 22, 23]);
}

/// With the default table and a connected pin, the `Interrupt Line` register holds the GSI
/// itself, since every default GSI fits in a byte.
pub proof fn lemma_default_irq_line_is_the_gsi(device: u8, interrupt_pin_cfg: u8)
    requires
        interrupt_pin_cfg != 0,
    ensures
        spec_irq_line(DEFAULT_PIRQ_TO_GSI@, device, interrupt_pin_cfg) as u32
            == DEFAULT_PIRQ_TO_GSI@[spec_pirq_index(device, ((interrupt_pin_cfg - 1) % 4) as u8) as int],
{
    assert(DEFAULT_PIRQ_TO_GSI@ =~= seq![20u32, 21, 22, 23]);
}

} // verus!
