use hid_remap::device::{
    Direction, Endpoint, Interface, InterfaceDescriptor, TransferType, UsbDevice,
};
use hid_remap::device_definition::{
    DeviceAnalogDefinition, DeviceButtonDefinition, DeviceMapDefinition,
};
use hid_remap::device_input::{
    find_input, resolve_endpoint, seek, Reader, ReaderAction, ReaderError, ReaderEvent, Target,
    READ_TIMEOUT_SECONDS,
};
use hid_remap::device_mapping::{DeviceMap, DeviceMaps};
use hid_remap::input::Input;

fn scale(min: f32, max: f32) -> [u32; 256] {
    let mut table = [0u32; 256];
    for value in 0..256usize {
        table[value] = (value as f32 * (max - min) / 256.0 + min).to_bits();
    }
    table
}

fn endpoint(address: u8, direction: Direction, transfer_type: TransferType) -> Endpoint {
    Endpoint { address, direction, transfer_type, max_packet_size: 8 }
}

fn setting(endpoints: Vec<Endpoint>) -> InterfaceDescriptor {
    InterfaceDescriptor { endpoints }
}

fn usb(bus_number: u8, address: u8, interfaces: Vec<Interface>) -> UsbDevice {
    UsbDevice { bus_number, address, vendor_id: 1, product_id: 2, interfaces }
}

fn plain(bus_number: u8, address: u8, transfer_type: TransferType) -> UsbDevice {
    usb(
        bus_number,
        address,
        vec![Interface {
            number: 3,
            descriptors: vec![setting(vec![endpoint(0x81, Direction::In, transfer_type)])],
        }],
    )
}

fn mapping() -> DeviceMap {
    let definition = DeviceMapDefinition {
        name: "Stick".to_owned(),
        packet_size: 8,
        digitals: Some(vec![DeviceButtonDefinition { name: "fire".to_owned(), index: 3, mask: 1 }]),
        bytes: None,
        analogs: Some(vec![DeviceAnalogDefinition {
            name: "x".to_owned(),
            index: 4,
            output: scale(-1.0, 1.0),
        }]),
    };
    DeviceMaps::new(&vec![(1, definition)]).unwrap().devices[&1].duplicate()
}

fn streaming() -> Reader {
    let mut reader = Reader::new(1, 2, mapping()).unwrap();
    let attached = vec![plain(1, 1, TransferType::Bulk), plain(1, 2, TransferType::Interrupt)];
    assert_eq!(reader.step(ReaderEvent::Enumerated(attached)), ReaderAction::Open);
    assert_eq!(reader.step(ReaderEvent::Opened), ReaderAction::QueryKernelDriver(3));
    assert_eq!(reader.step(ReaderEvent::KernelDriver(false)), ReaderAction::ClaimInterface(3));
    assert_eq!(reader.step(ReaderEvent::Claimed), ReaderAction::Read { endpoint: 0x81, size: 8 });
    reader
}

fn failing(events: Vec<ReaderEvent>) -> ReaderAction {
    let mut reader = Reader::new(1, 2, mapping()).unwrap();
    let mut action = reader.ask();
    for event in events {
        action = reader.step(event);
    }
    assert_eq!(reader.ask(), action);
    action
}

fn found() -> ReaderEvent {
    ReaderEvent::Enumerated(vec![plain(1, 2, TransferType::Interrupt)])
}

#[test]
fn a_read_gives_up_after_four_seconds() {
    assert_eq!(READ_TIMEOUT_SECONDS, 4);
}

fn sized(address: u8, direction: Direction, max_packet_size: u16) -> Endpoint {
    Endpoint { address, direction, transfer_type: TransferType::Interrupt, max_packet_size }
}

#[test]
fn the_first_endpoint_that_serves_the_reports_is_found() {
    let out = endpoint(0x01, Direction::Out, TransferType::Interrupt);
    let first = endpoint(0x81, Direction::In, TransferType::Bulk);
    let second = endpoint(0x82, Direction::In, TransferType::Interrupt);
    let wide = sized(0x83, Direction::In, 64);
    assert_eq!(find_input(&vec![out, first, second], 8), Some(first));
    assert_eq!(find_input(&vec![second, first], 8), Some(second));
    assert_eq!(find_input(&vec![wide, out, second], 8), Some(second));
    assert_eq!(find_input(&vec![wide, out, second], 64), Some(wide));
    assert_eq!(find_input(&vec![wide, second], 16), None);
    assert_eq!(find_input(&vec![sized(0x01, Direction::Out, 8)], 8), None);
    assert_eq!(find_input(&vec![out], 8), None);
    assert_eq!(find_input(&vec![], 8), None);
}

#[test]
fn the_last_setting_with_a_serving_endpoint_is_read() {
    let out = endpoint(0x01, Direction::Out, TransferType::Interrupt);
    let device = usb(
        1,
        2,
        vec![
            Interface {
                number: 0,
                descriptors: vec![setting(vec![endpoint(0x81, Direction::In, TransferType::Interrupt)])],
            },
            Interface {
                number: 1,
                descriptors: vec![
                    setting(vec![
                        out,
                        sized(0x82, Direction::In, 64),
                        endpoint(0x83, Direction::In, TransferType::Interrupt),
                        endpoint(0x84, Direction::In, TransferType::Interrupt),
                    ]),
                    setting(vec![out, sized(0x85, Direction::In, 16)]),
                ],
            },
            Interface { number: 2, descriptors: vec![] },
        ],
    );
    assert_eq!(
        resolve_endpoint(&device, 8),
        Some(Target { interface: 1, endpoint: 0x83, transfer: TransferType::Interrupt })
    );
    assert_eq!(
        resolve_endpoint(&device, 16),
        Some(Target { interface: 1, endpoint: 0x85, transfer: TransferType::Interrupt })
    );
    assert_eq!(
        resolve_endpoint(&device, 64),
        Some(Target { interface: 1, endpoint: 0x82, transfer: TransferType::Interrupt })
    );
    assert_eq!(resolve_endpoint(&device, 32), None);
    assert_eq!(resolve_endpoint(&usb(1, 2, vec![]), 8), None);
    assert_eq!(
        resolve_endpoint(
            &usb(1, 2, vec![Interface { number: 0, descriptors: vec![setting(vec![out])] }]),
            8
        ),
        None
    );
}

#[test]
fn a_device_is_resolved_exactly_where_it_is_compatible() {
    let devices = vec![
        plain(1, 2, TransferType::Interrupt),
        usb(1, 2, vec![]),
        usb(
            1,
            2,
            vec![Interface {
                number: 0,
                descriptors: vec![
                    setting(vec![sized(0x01, Direction::Out, 8), sized(0x81, Direction::In, 16)]),
                    setting(vec![sized(0x82, Direction::In, 32)]),
                ],
            }],
        ),
    ];
    for device in &devices {
        for packet_size in [4u16, 8, 16, 32] {
            assert_eq!(
                resolve_endpoint(device, packet_size).is_some(),
                device.is_compatible(packet_size)
            );
        }
    }
}

#[test]
fn the_first_device_at_the_bus_number_and_address_is_sought() {
    let attached = vec![
        plain(1, 1, TransferType::Interrupt),
        plain(2, 2, TransferType::Interrupt),
        plain(1, 2, TransferType::Interrupt),
        plain(1, 2, TransferType::Bulk),
    ];
    assert_eq!(seek(&attached, 1, 2), Some(2));
    assert_eq!(seek(&attached, 1, 1), Some(0));
    assert_eq!(seek(&attached, 2, 1), None);
    assert_eq!(seek(&vec![], 1, 2), None);
}

#[test]
fn there_is_no_reader_for_a_malformed_mapping() {
    let mut short = mapping();
    short.packet_size = 4;
    assert!(Reader::new(1, 2, short).is_none());
    let mut blind = mapping();
    blind.digitals[0].mask = 0;
    assert!(Reader::new(1, 2, blind).is_none());
    assert!(Reader::new(1, 2, mapping()).is_some());
}

#[test]
fn a_reader_starts_by_asking_for_the_attached_devices() {
    let reader = Reader::new(1, 2, mapping()).unwrap();
    assert_eq!(reader.ask(), ReaderAction::Enumerate);
}

#[test]
fn a_kernel_driver_is_detached_before_the_interface_is_claimed() {
    let mut reader = Reader::new(1, 2, mapping()).unwrap();
    assert_eq!(reader.step(found()), ReaderAction::Open);
    assert_eq!(reader.step(ReaderEvent::Opened), ReaderAction::QueryKernelDriver(3));
    assert_eq!(reader.step(ReaderEvent::KernelDriver(true)), ReaderAction::DetachKernelDriver(3));
    assert_eq!(reader.step(ReaderEvent::Detached), ReaderAction::ClaimInterface(3));
    assert_eq!(reader.step(ReaderEvent::Claimed), ReaderAction::Read { endpoint: 0x81, size: 8 });
}

#[test]
fn reports_are_decoded_and_their_events_handed_on() {
    let mut reader = streaming();
    let forward = |events| ReaderAction::Forward { events, endpoint: 0x81, size: 8 };
    assert_eq!(reader.step(ReaderEvent::Report(vec![9, 9, 9, 0, 0, 9, 9, 9])), forward(vec![]));
    assert_eq!(
        reader.step(ReaderEvent::Report(vec![9, 9, 9, 1, 128, 9, 9, 9])),
        forward(vec![Input::ButtonDown(0), Input::Axis(1, 0.0f32.to_bits(), (-1.0f32).to_bits())])
    );
    assert_eq!(reader.step(ReaderEvent::Timeout), ReaderAction::Read { endpoint: 0x81, size: 8 });
    assert_eq!(
        reader.step(ReaderEvent::Report(vec![7, 7, 7, 0, 0, 7, 7, 7])),
        forward(vec![Input::ButtonUp(0), Input::Axis(1, (-1.0f32).to_bits(), 0.0f32.to_bits())])
    );
    assert_eq!(reader.ask(), ReaderAction::Read { endpoint: 0x81, size: 8 });
}

#[test]
fn a_short_report_leaves_the_rest_of_the_buffer() {
    let mut reader = streaming();
    let forward = |events| ReaderAction::Forward { events, endpoint: 0x81, size: 8 };
    assert_eq!(
        reader.step(ReaderEvent::Report(vec![0, 0, 0, 1, 64, 0, 0, 0])),
        forward(vec![Input::ButtonDown(0), Input::Axis(1, (-0.5f32).to_bits(), (-1.0f32).to_bits())])
    );
    assert_eq!(reader.step(ReaderEvent::Report(vec![5, 5, 5])), forward(vec![]));
    assert_eq!(reader.step(ReaderEvent::Report(vec![])), forward(vec![]));
    assert_eq!(reader.step(ReaderEvent::Report(vec![5, 5, 5, 0])), forward(vec![Input::ButtonUp(0)]));
    assert_eq!(
        reader.step(ReaderEvent::Report(vec![0, 0, 0, 0, 0, 0, 0, 0, 1, 1, 1])),
        forward(vec![Input::Axis(1, (-1.0f32).to_bits(), (-0.5f32).to_bits())])
    );
}

#[test]
fn a_reader_ends_where_its_device_cannot_be_reached() {
    let gone = ReaderAction::Finish(ReaderError::DeviceAccess);
    assert_eq!(failing(vec![ReaderEvent::EnumerationFailed]), gone);
    assert_eq!(failing(vec![ReaderEvent::Enumerated(vec![])]), gone);
    assert_eq!(
        failing(vec![ReaderEvent::Enumerated(vec![plain(2, 2, TransferType::Interrupt)])]),
        gone
    );
    assert_eq!(failing(vec![found(), ReaderEvent::OpenFailed]), gone);
    assert_eq!(failing(vec![found(), ReaderEvent::Opened, ReaderEvent::KernelDriverUnknown]), gone);
    assert_eq!(
        failing(vec![
            found(),
            ReaderEvent::Opened,
            ReaderEvent::KernelDriver(true),
            ReaderEvent::DetachFailed
        ]),
        gone
    );
    assert_eq!(
        failing(vec![
            found(),
            ReaderEvent::Opened,
            ReaderEvent::KernelDriver(false),
            ReaderEvent::ClaimFailed
        ]),
        gone
    );
}

#[test]
fn a_reader_ends_where_there_is_nothing_to_read_from() {
    let bare = usb(
        1,
        2,
        vec![Interface {
            number: 0,
            descriptors: vec![setting(vec![endpoint(0x01, Direction::Out, TransferType::Interrupt)])],
        }],
    );
    assert_eq!(
        failing(vec![ReaderEvent::Enumerated(vec![bare])]),
        ReaderAction::Finish(ReaderError::EndpointNotFound)
    );
}

#[test]
fn a_reader_ends_without_opening_where_no_endpoint_has_the_packet_size() {
    let wide = usb(
        1,
        2,
        vec![Interface {
            number: 0,
            descriptors: vec![setting(vec![sized(0x81, Direction::In, 64)])],
        }],
    );
    let mut reader = Reader::new(1, 2, mapping()).unwrap();
    assert_eq!(
        reader.step(ReaderEvent::Enumerated(vec![wide])),
        ReaderAction::Finish(ReaderError::EndpointNotFound)
    );
    assert_eq!(reader.step(ReaderEvent::Opened), ReaderAction::Finish(ReaderError::EndpointNotFound));
    assert_eq!(reader.ask(), ReaderAction::Finish(ReaderError::EndpointNotFound));
}

#[test]
fn a_reader_ends_where_the_endpoint_is_not_read_by_interrupt_transfers() {
    for kind in [TransferType::Bulk, TransferType::Control, TransferType::Isochronous] {
        assert_eq!(
            failing(vec![
                ReaderEvent::Enumerated(vec![plain(1, 2, kind)]),
                ReaderEvent::Opened,
                ReaderEvent::KernelDriver(false),
                ReaderEvent::Claimed
            ]),
            ReaderAction::Finish(ReaderError::IncompatibleTransfer)
        );
    }
}

#[test]
fn a_reader_ends_where_a_read_or_a_send_fails() {
    let mut reader = streaming();
    assert_eq!(reader.step(ReaderEvent::TransferFailed), ReaderAction::Finish(ReaderError::Transfer));
    assert_eq!(reader.step(ReaderEvent::Timeout), ReaderAction::Finish(ReaderError::Transfer));
    assert_eq!(reader.step(ReaderEvent::Report(vec![0; 8])), ReaderAction::Finish(ReaderError::Transfer));
    let mut reader = streaming();
    assert_eq!(reader.step(ReaderEvent::SendFailed), ReaderAction::Finish(ReaderError::SendFailed));
    assert_eq!(reader.step(found()), ReaderAction::Finish(ReaderError::SendFailed));
}

#[test]
fn an_event_that_answers_nothing_asks_again() {
    let mut reader = Reader::new(1, 2, mapping()).unwrap();
    assert_eq!(reader.step(ReaderEvent::Opened), ReaderAction::Enumerate);
    assert_eq!(reader.step(ReaderEvent::Report(vec![0, 0, 0, 1, 0, 0, 0, 0])), ReaderAction::Enumerate);
    assert_eq!(reader.step(ReaderEvent::SendFailed), ReaderAction::Enumerate);
    assert_eq!(reader.step(found()), ReaderAction::Open);
    assert_eq!(reader.step(ReaderEvent::Claimed), ReaderAction::Open);
    assert_eq!(reader.step(found()), ReaderAction::Open);
    assert_eq!(reader.step(ReaderEvent::Opened), ReaderAction::QueryKernelDriver(3));
    assert_eq!(reader.step(ReaderEvent::Detached), ReaderAction::QueryKernelDriver(3));
    assert_eq!(reader.step(ReaderEvent::KernelDriver(false)), ReaderAction::ClaimInterface(3));
    assert_eq!(reader.step(ReaderEvent::KernelDriver(true)), ReaderAction::ClaimInterface(3));
    assert_eq!(reader.step(ReaderEvent::Claimed), ReaderAction::Read { endpoint: 0x81, size: 8 });
    assert_eq!(reader.step(ReaderEvent::Claimed), ReaderAction::Read { endpoint: 0x81, size: 8 });
    assert_eq!(
        reader.step(ReaderEvent::Report(vec![0, 0, 0, 1, 0, 0, 0, 0])),
        ReaderAction::Forward { events: vec![Input::ButtonDown(0)], endpoint: 0x81, size: 8 }
    );
}
