use hid_remap::device::{
    discover_devices, identity, signature, DeviceList, Direction, Endpoint, HasDevice, Interface,
    InterfaceDescriptor, TransferType, UsbDevice,
};
use hid_remap::device_definition::{DeviceButtonDefinition, DeviceMapDefinition};
use hid_remap::device_manager::DeviceManager;
use hid_remap::device_mapping::DeviceMaps;

fn endpoint(address: u8, direction: Direction, max_packet_size: u16) -> Endpoint {
    Endpoint { address, direction, transfer_type: TransferType::Interrupt, max_packet_size }
}

fn usb(bus_number: u8, address: u8, vendor_id: u16, product_id: u16, endpoints: Vec<Endpoint>) -> UsbDevice {
    UsbDevice {
        bus_number,
        address,
        vendor_id,
        product_id,
        interfaces: vec![Interface {
            number: 0,
            descriptors: vec![InterfaceDescriptor { endpoints: vec![] }, InterfaceDescriptor { endpoints }],
        }],
    }
}

fn mapping(name: &str, packet_size: u16) -> DeviceMapDefinition {
    DeviceMapDefinition {
        name: name.to_owned(),
        packet_size,
        digitals: Some(vec![DeviceButtonDefinition { name: "fire".to_owned(), index: 0, mask: 1 }]),
        bytes: None,
        analogs: None,
    }
}

fn maps() -> DeviceMaps {
    DeviceMaps::new(&vec![(0x046d_c215, mapping("Stick", 8)), (0x0001_0002, mapping("Pad", 4))]).unwrap()
}

fn stick(bus_number: u8, address: u8) -> UsbDevice {
    usb(bus_number, address, 0x046d, 0xc215, vec![endpoint(0x81, Direction::In, 8)])
}

fn pad(bus_number: u8, address: u8) -> UsbDevice {
    usb(bus_number, address, 0x0001, 0x0002, vec![endpoint(0x01, Direction::Out, 4), endpoint(0x82, Direction::In, 4)])
}

fn found(devices: &[hid_remap::device::DiscoveredDevice]) -> Vec<(u16, u8, u8, String)> {
    devices.iter().map(|d| (d.identity, d.bus_number, d.address, d.mapping.name.clone())).collect()
}

#[test]
fn identity_and_signature_pack_their_parts() {
    assert_eq!(identity(0, 0), 0);
    assert_eq!(identity(1, 2), 0x0102);
    assert_eq!(identity(255, 255), 0xffff);
    assert_eq!(signature(0, 0), 0);
    assert_eq!(signature(0x046d, 0xc215), 0x046d_c215);
    assert_eq!(signature(0xffff, 0xffff), 0xffff_ffff);
}

#[test]
fn a_list_holds_what_was_added_and_not_removed() {
    let mut list = DeviceList::new();
    assert!(!list.has_address(7));
    list.add_device(7);
    list.add_device(9);
    list.add_device(7);
    assert!(list.has_address(7));
    assert!(list.has_address(9));
    assert!(!list.has_address(8));
    list.remove_device(7);
    assert!(!list.has_address(7));
    assert!(list.has_address(9));
    list.remove_device(8);
    assert!(list.has_address(9));
}

#[test]
fn a_device_is_compatible_where_an_input_endpoint_has_the_packet_size() {
    assert!(stick(1, 1).is_compatible(8));
    assert!(!stick(1, 1).is_compatible(4));
    assert!(pad(1, 1).is_compatible(4));
    let only_out = usb(1, 1, 1, 2, vec![endpoint(0x01, Direction::Out, 4)]);
    assert!(!only_out.is_compatible(4));
    let bare = UsbDevice { bus_number: 1, address: 1, vendor_id: 1, product_id: 2, interfaces: vec![] };
    assert!(!bare.is_compatible(4));
}

#[test]
fn known_devices_with_an_endpoint_are_discovered_in_bus_order() {
    let attached = vec![
        stick(1, 2),
        usb(1, 3, 0xdead, 0xbeef, vec![endpoint(0x81, Direction::In, 8)]),
        usb(1, 4, 0x046d, 0xc215, vec![endpoint(0x81, Direction::In, 16)]),
        pad(2, 1),
        stick(2, 9),
    ];
    let discovered = discover_devices(&attached, &DeviceList::new(), &maps());
    assert_eq!(
        found(&discovered),
        vec![
            (0x0102, 1, 2, "Stick".to_owned()),
            (0x0201, 2, 1, "Pad".to_owned()),
            (0x0209, 2, 9, "Stick".to_owned()),
        ]
    );
    assert_eq!(discovered[0].mapping.packet_size, 8);
    assert_eq!(discovered[0].mapping.digitals[0].uid, 0);
    assert_eq!(discovered[1].mapping.digitals[0].uid, 1);
}

#[test]
fn devices_that_are_being_read_are_passed_over() {
    let mut held = DeviceList::new();
    held.add_device(0x0102);
    let attached = vec![stick(1, 2), pad(1, 3), pad(1, 3)];
    assert_eq!(
        found(&discover_devices(&attached, &held, &maps())),
        vec![(0x0103, 1, 3, "Pad".to_owned())]
    );
}

#[test]
fn a_pass_tracks_what_it_starts_and_frees_what_has_finished() {
    let mut manager = DeviceManager::new(maps());
    let attached = vec![stick(1, 2), pad(1, 3)];
    let first = manager.discover(&vec![], &attached);
    assert_eq!(
        found(&first),
        vec![(0x0102, 1, 2, "Stick".to_owned()), (0x0103, 1, 3, "Pad".to_owned())]
    );
    assert!(manager.discover(&vec![], &attached).is_empty());
    let third = manager.discover(&vec![0x0103, 0x0999], &attached);
    assert_eq!(found(&third), vec![(0x0103, 1, 3, "Pad".to_owned())]);
    assert!(manager.discover(&vec![0x0102], &vec![]).is_empty());
    let fifth = manager.discover(&vec![], &attached);
    assert_eq!(found(&fifth), vec![(0x0102, 1, 2, "Stick".to_owned())]);
}

#[test]
fn a_device_without_a_fitting_endpoint_is_tried_again_on_each_pass() {
    let mut manager = DeviceManager::new(maps());
    let unfit = vec![usb(1, 2, 0x046d, 0xc215, vec![endpoint(0x81, Direction::In, 64)])];
    assert!(manager.discover(&vec![], &unfit).is_empty());
    assert!(manager.discover(&vec![], &unfit).is_empty());
    assert_eq!(found(&manager.discover(&vec![], &vec![stick(1, 2)])).len(), 1);
}

#[test]
fn a_manager_tells_which_devices_are_being_read() {
    let mut manager = DeviceManager::new(maps());
    assert!(!manager.is_mapped(0x0102));
    manager.discover(&vec![], &vec![stick(1, 2)]);
    assert!(manager.is_mapped(0x0102));
    assert!(!manager.is_mapped(0x0103));
    manager.discover(&vec![0x0102], &vec![]);
    assert!(!manager.is_mapped(0x0102));
}
