use aero::pci_routing::{
    gsi_for_intx, irq_line_for_intx, pirq_index, q35_legacy_pic_irq_for_gsi, DEFAULT_PIRQ_TO_GSI,
};

#[test]
fn pirq_swizzle_matches_qemu_style_policy() {
    // Device 0: no swizzle.
    assert_eq!(pirq_index(0, 0), 0);
    assert_eq!(pirq_index(0, 1), 1);
    assert_eq!(pirq_index(0, 2), 2);
    assert_eq!(pirq_index(0, 3), 3);

    // Device 1: swizzled by one.
    assert_eq!(pirq_index(1, 0), 1);
    assert_eq!(pirq_index(1, 1), 2);
    assert_eq!(pirq_index(1, 2), 3);
    assert_eq!(pirq_index(1, 3), 0);

    // Device 4 wraps around.
    assert_eq!(pirq_index(4, 0), 0);
}

#[test]
fn gsi_and_irq_line_helpers_follow_pirq_map() {
    let map = DEFAULT_PIRQ_TO_GSI;

    assert_eq!(gsi_for_intx(map, 0, 0), 20);
    assert_eq!(gsi_for_intx(map, 1, 0), 21);
    assert_eq!(gsi_for_intx(map, 2, 3), 21);

    // interrupt_pin_cfg: 1=INTA, 4=INTD.
    assert_eq!(irq_line_for_intx(map, 1, 1), 21);
    assert_eq!(irq_line_for_intx(map, 2, 4), 21);

    // interrupt_pin_cfg=0 => 0xFF sentinel.
    assert_eq!(irq_line_for_intx(map, 2, 0), 0xFF);
}

#[test]
fn default_q35_routes_use_dedicated_apic_gsis() {
    assert_eq!(DEFAULT_PIRQ_TO_GSI, [20, 21, 22, 23]);
    assert!(
        DEFAULT_PIRQ_TO_GSI.iter().all(|gsi| !matches!(gsi, 1 | 12)),
        "PCI INTx must not overlap the fixed PS/2 keyboard/mouse IRQs"
    );
}

#[test]
fn q35_apic_window_has_a_legacy_pic_compatibility_view() {
    assert_eq!(q35_legacy_pic_irq_for_gsi(20), Some(10));
    assert_eq!(q35_legacy_pic_irq_for_gsi(21), Some(11));
    assert_eq!(q35_legacy_pic_irq_for_gsi(22), Some(12));
    assert_eq!(q35_legacy_pic_irq_for_gsi(23), Some(13));
    assert_eq!(q35_legacy_pic_irq_for_gsi(12), None);
    assert_eq!(q35_legacy_pic_irq_for_gsi(24), None);
}

#[test]
fn every_device_uses_each_pirq_line_once() {
    for device in 0u8..=31 {
        let mut seen = [false; 4];
        for pin in 0u8..4 {
            seen[pirq_index(device, pin) as usize] = true;
        }
        assert!(seen.iter().all(|s| *s));
    }
}

#[test]
fn the_next_device_rotates_the_lines_by_one() {
    assert_eq!(pirq_index(6, 2), (pirq_index(5, 2) + 1) % 4);
    assert_eq!(pirq_index(3, 3), 2);
}

#[test]
fn a_custom_map_is_followed_and_large_gsis_have_no_irq_line() {
    let map = [5, 9, 300, 11];
    assert_eq!(gsi_for_intx(map, 0, 2), 300);
    assert_eq!(irq_line_for_intx(map, 1, 2), 0xFF);
    assert_eq!(irq_line_for_intx(map, 0, 4), 11);
    assert_eq!(irq_line_for_intx(map, 0, 5), 5);
}
