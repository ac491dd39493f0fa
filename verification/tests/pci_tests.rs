use vespertine::drivers::pci::config::{
    pci_build_addr, pci_config_read_16, pci_config_read_32, pci_config_write_16,
    pci_config_write_32, pci_device, pci_find_msix_cap, pci_has_msix, pci_setup_msix_entry,
    touched_pages, ConfigSpace, MsixCapability,
};
use vespertine::drivers::virtio::mmio::{init_virtio, walk_cap, VirtioCommonCfg};

fn space(words: &[(usize, u32)]) -> ConfigSpace {
    let mut all = vec![0u32; 64];
    for (i, word) in words {
        all[*i] = *word;
    }
    ConfigSpace::new(all).unwrap()
}

/// A function with an MSI-X capability at 0x50 behind another at 0x40.
fn with_msix() -> ConfigSpace {
    space(&[
        (0, 0x1042_1AF4),
        (1, 0x0010_0007),
        (2, 0x0100_0001),
        (3, 0x0080_0010),
        (13, 0x40),
        (16, 0x0000_5005),
        (20, 0x4007_0011),
        (21, 0x0000_2004),
    ])
}

#[test]
fn address_is_made_of_its_parts() {
    assert_eq!(pci_build_addr(0, 0, 0, 0), 0x8000_0000);
    assert_eq!(pci_build_addr(1, 2, 3, 0x47), 0x8001_1344);
}

#[test]
fn words_and_halves_are_read_and_written() {
    assert!(ConfigSpace::new(vec![0; 63]).is_none());
    let mut config = space(&[(4, 0x1234_5678)]);
    assert_eq!(pci_config_read_32(&config, 0x12), 0x1234_5678);
    assert_eq!(pci_config_read_16(&config, 0x10), 0x5678);
    assert_eq!(pci_config_read_16(&config, 0x12), 0x1234);
    pci_config_write_16(&mut config, 0x12, 0xABCD);
    assert_eq!(pci_config_read_32(&config, 0x10), 0xABCD_5678);
    pci_config_write_16(&mut config, 0x10, 0xEF01);
    assert_eq!(pci_config_read_32(&config, 0x10), 0xABCD_EF01);
    pci_config_write_32(&mut config, 0x10, 1);
    assert_eq!(pci_config_read_16(&config, 0x10), 1);
}

#[test]
fn msix_capability_is_found() {
    let config = with_msix();
    assert!(pci_has_msix(&config));
    assert_eq!(
        pci_find_msix_cap(&config),
        Some(MsixCapability { cap_offset: 0x50, bir: 4, table_offset: 0x2000, entries: 8 })
    );
    assert_eq!(pci_find_msix_cap(&space(&[(13, 0x40)])), None);
    assert!(!pci_has_msix(&space(&[(1, 0x0010_0000), (13, 0x40), (16, 0x0000_4005)])));
}

#[test]
fn msix_entry_is_set_up() {
    let mut config = with_msix();
    let plan = pci_setup_msix_entry(&mut config, Some(0xFE00_0F00), 7).unwrap();
    assert_eq!(plan.entry, 0xFE00_2F00 + 112);
    assert_eq!(plan.pages, vec![0xFE00_2000]);
    assert_eq!(pci_config_read_16(&config, 0x52), 0x8007);
    let mut config = with_msix();
    assert!(pci_setup_msix_entry(&mut config, Some(0xFE00_0000), 8).is_err());
    assert!(pci_setup_msix_entry(&mut config, None, 0).is_err());
    assert_eq!(pci_config_read_16(&config, 0x52), 0x4007);
}

#[test]
fn device_says_what_it_is() {
    let device = pci_device(&with_msix(), 0, 3, 1);
    assert_eq!((device.vendor_id, device.device_id), (0x1AF4, 0x1042));
    assert_eq!((device.class, device.subclass, device.header_type), (1, 0, 0x80));
    assert_eq!((device.bus, device.slot, device.func), (0, 3, 1));
}

#[test]
fn pages_around_a_range() {
    assert_eq!(touched_pages(0x1FFF, 2), vec![0x1000, 0x2000]);
    assert_eq!(touched_pages(0x2000, 1), vec![0x2000]);
}

fn virtio() -> ConfigSpace {
    let mut words = vec![(13, 0x40)];
    let places = [(0x40, 1u32), (0x50, 2), (0x68, 3), (0x78, 4)];
    for (i, (at, kind)) in places.iter().enumerate() {
        let next = if i + 1 < places.len() { places[i + 1].0 as u32 } else { 0 };
        let base = at / 4;
        words.push((base, 0x09 | next << 8 | 0x10 << 16 | kind << 24));
        words.push((base + 1, 2));
        words.push((base + 2, 0x1000 * i as u32));
        words.push((base + 3, 0x40));
    }
    words.push((0x60 / 4, 4));
    space(&words)
}

#[test]
fn registers_of_a_virtio_device_are_found() {
    let config = virtio();
    let caps = walk_cap(&config);
    assert_eq!(caps.len(), 4);
    assert_eq!(caps[1].cfg_type, 2);
    assert_eq!(caps[1].notify_off_multiplier, 4);
    assert_eq!(caps[2].notify_off_multiplier, 0);
    let device = pci_device(&config, 0, 3, 0);
    let bars = vec![None, None, Some(0xFEB0_0000), None, None, None];
    let (pages, driver) = init_virtio(&device, &caps, &bars, 0x1_0000_0000);
    assert_eq!(pages, vec![0xFEB0_0000, 0xFEB0_1000, 0xFEB0_2000, 0xFEB0_3000]);
    let driver = driver.unwrap();
    assert_eq!(driver.common_cfg, 0x1_FEB0_0000);
    assert_eq!(driver.notify_base, 0x1_FEB0_1000);
    assert_eq!(driver.notify_off_multiplier, 4);
    assert_eq!(driver.isr_cfg, 0x1_FEB0_2000);
    assert_eq!(driver.device_cfg, 0x1_FEB0_3000);
    let (_, missing) = init_virtio(&device, &caps[0..3].to_vec(), &bars, 0);
    assert!(missing.is_none());
    let (pages, none) = init_virtio(&device, &caps, &vec![None; 6], 0);
    assert!(pages.is_empty() && none.is_none());
}

#[test]
fn circular_capability_list_ends() {
    let config = space(&[(1, 0x0010_0000), (13, 0x40), (16, 0x0000_4009)]);
    assert_eq!(walk_cap(&config).len(), 256);
}

#[test]
fn common_registers_are_read() {
    let mut bytes = vec![0u8; 56];
    bytes[18] = 4;
    bytes[20] = 0x0F;
    bytes[25] = 1;
    bytes[32] = 7;
    let cfg = VirtioCommonCfg::read(&bytes).unwrap();
    assert_eq!(cfg.num_queues, 4);
    assert_eq!(cfg.device_status, 0x0F);
    assert_eq!(cfg.queue_size, 256);
    assert_eq!(cfg.queue_desc, 7);
    assert!(VirtioCommonCfg::read(&vec![0; 55]).is_none());
}
