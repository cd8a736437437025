use crate::device::{
    Direction, Endpoint, Interface, InterfaceDescriptor, TransferType, UsbDevice, serves,
};
use crate::device_mapping::{DeviceMap, DeviceMapView, analog_views, digital_views};
use crate::input::Input;
use crate::map_input::{MapInput, MapInputView};
use vstd::prelude::*;

verus! {

/// Seconds after which a read without a report gives up and is asked again.
pub const READ_TIMEOUT_SECONDS: u64 = 4;

/// Why the reader of a device has ended.
#[derive(Debug, Clone, Copy, PartialEq, Eq, Structural)]
pub enum ReaderError {
    /// The device is gone, or it could not be opened, freed from its driver or claimed.
    DeviceAccess,
    /// The device has no endpoint that serves the reports of its mapping.
    EndpointNotFound,
    /// The endpoint is not read by interrupt transfers.
    IncompatibleTransfer,
    /// A read failed otherwise than by running out of time.
    Transfer,
    /// The events could not be handed on.
    SendFailed,
}

/// What the reader reads from: an endpoint and the interface that it belongs to.
#[derive(Debug, Clone, Copy, PartialEq, Eq, Structural)]
pub struct Target {
    pub interface: u8,
    pub endpoint: u8,
    pub transfer: TransferType,
}

/// The first endpoint of the list that serves reports of `packet_size` bytes: one that the
/// host reads from and whose largest packet has that size.
pub open spec fn first_input(endpoints: Seq<Endpoint>, packet_size: u16) -> Option<Endpoint>
    decreases endpoints.len(),
{
    if endpoints.len() == 0 {
        None
    } else if serves(endpoints[0], packet_size) {
        Some(endpoints[0])
    } else {
        first_input(endpoints.drop_first(), packet_size)
    }
}

/// What a setting of the interface `number` offers to read reports of `packet_size` bytes
/// from, if anything.
pub open spec fn offered(number: u8, descriptor: InterfaceDescriptor, packet_size: u16) -> Option<
    Target,
> {
    match first_input(descriptor.endpoints@, packet_size) {
        Some(endpoint) => Some(
            Target { interface: number, endpoint: endpoint.address, transfer: endpoint.transfer_type },
        ),
        None => None,
    }
}

/// What the settings of an interface offer to read reports of `packet_size` bytes from, in
/// their order.
pub open spec fn interface_offers(interface: Interface, packet_size: u16) -> Seq<Target> {
    interface.descriptors@.filter_map(
        |descriptor: InterfaceDescriptor| offered(interface.number, descriptor, packet_size),
    )
}

/// What the device offers to read reports of `packet_size` bytes from, interface by
/// interface.
pub open spec fn offers(device: UsbDevice, packet_size: u16) -> Seq<Target> {
    device.interfaces@.flat_map(|interface: Interface| interface_offers(interface, packet_size))
}

/// What the reader of a device reads reports of `packet_size` bytes from: the last of what
/// the device offers.
pub open spec fn resolved(device: UsbDevice, packet_size: u16) -> Option<Target> {
    if offers(device, packet_size).len() > 0 {
        Some(offers(device, packet_size).last())
    } else {
        None
    }
}

/// Finds the first endpoint of a setting that serves reports of `packet_size` bytes.
pub fn find_input(endpoints: &Vec<Endpoint>, packet_size: u16) -> (found: Option<Endpoint>)
    ensures
        found == first_input(endpoints@, packet_size),
{
    let mut k: usize = 0;
    assert(endpoints@.skip(0) =~= endpoints@);
    while k < endpoints.len()
        invariant
            k <= endpoints.len(),
            first_input(endpoints@, packet_size) == first_input(
                endpoints@.skip(k as int),
                packet_size,
            ),
        decreases endpoints.len() - k,
    {
        assert(endpoints@.skip(k as int).drop_first() =~= endpoints@.skip(k + 1));
        if endpoints[k].direction == Direction::In && endpoints[k].max_packet_size == packet_size {
            return Some(endpoints[k]);
        }
        k += 1;
    }
    None
}

/// Finds what the reader of a device reads reports of `packet_size` bytes from.
pub fn resolve_endpoint(device: &UsbDevice, packet_size: u16) -> (target: Option<Target>)
    ensures
        target == resolved(*device, packet_size),
{
    let ghost by_interface = |interface: Interface| interface_offers(interface, packet_size);
    let mut target: Option<Target> = None;
    let ghost mut seen: Seq<Target> = Seq::empty();
    assert(device.interfaces@.take(0).flat_map(by_interface) =~= Seq::empty());
    let mut i: usize = 0;
    while i < device.interfaces.len()
        invariant
            i <= device.interfaces.len(),
            by_interface == |interface: Interface| interface_offers(interface, packet_size),
            seen == device.interfaces@.take(i as int).flat_map(by_interface),
            target == if seen.len() > 0 {
                Some(seen.last())
            } else {
                None
            },
        decreases device.interfaces.len() - i,
    {
        let interface = &device.interfaces[i];
        let ghost by_setting = |descriptor: InterfaceDescriptor|
            offered(interface.number, descriptor, packet_size);
        let ghost start = seen;
        assert(interface.descriptors@.take(0).filter_map(by_setting) =~= Seq::empty());
        let mut d: usize = 0;
        while d < interface.descriptors.len()
            invariant
                d <= interface.descriptors.len(),
                by_setting == |descriptor: InterfaceDescriptor|
                    offered(interface.number, descriptor, packet_size),
                seen == start + interface.descriptors@.take(d as int).filter_map(by_setting),
                target == if seen.len() > 0 {
                    Some(seen.last())
                } else {
                    None
                },
            decreases interface.descriptors.len() - d,
        {
            proof {
                interface.descriptors@.lemma_filter_map_take_succ(by_setting, d as int);
            }
            if let Some(endpoint) = find_input(&interface.descriptors[d].endpoints, packet_size) {
                let offer = Target {
                    interface: interface.number,
                    endpoint: endpoint.address,
                    transfer: endpoint.transfer_type,
                };
                target = Some(offer);
                proof {
                    seen = seen.push(offer);
                }
            }
            assert(seen =~= start + interface.descriptors@.take(d + 1).filter_map(by_setting));
            d += 1;
        }
        proof {
            assert(interface.descriptors@.take(interface.descriptors@.len() as int)
                =~= interface.descriptors@);
            device.interfaces@.lemma_flat_map_take_append(by_interface, i as int);
        }
        i += 1;
    }
    assert(device.interfaces@.take(device.interfaces@.len() as int) =~= device.interfaces@);
    target
}

/// Where the reader of a device stands; each state but the last waits for the answer to one
/// request.
#[derive(Debug, Clone, Copy, PartialEq, Eq, Structural)]
pub enum ReaderState {
    /// Waits for the attached devices, to find its own among them.
    Searching,
    /// Knows what to read from; waits for the device to be opened.
    EndpointResolved(Target),
    /// Waits to learn whether a kernel driver holds the interface.
    Opened(Target),
    /// Waits for the kernel driver to be detached.
    Detaching(Target),
    /// Waits for the interface to be claimed.
    Claiming(Target),
    /// Has claimed the interface; waits for the outcome of a read.
    Streaming(Target),
    /// Has ended.
    Terminated(ReaderError),
}

/// What has happened, as the caller reports it to the reader.
#[derive(Debug, Clone)]
pub enum ReaderEvent {
    /// The devices that are attached, each with its active configuration.
    Enumerated(Vec<UsbDevice>),
    /// The attached devices, or the configuration of this device, could not be read.
    EnumerationFailed,
    Opened,
    OpenFailed,
    /// Whether a kernel driver holds the interface.
    KernelDriver(bool),
    KernelDriverUnknown,
    Detached,
    DetachFailed,
    Claimed,
    ClaimFailed,
    /// A read has brought these bytes.
    Report(Vec<u8>),
    /// A read has run out of time.
    Timeout,
    /// A read has failed otherwise.
    TransferFailed,
    /// An event could not be handed on.
    SendFailed,
}

/// What the reader asks its caller to do next.
#[derive(Debug, Clone, PartialEq, Eq)]
pub enum ReaderAction {
    /// List the attached devices and answer `Enumerated` or `EnumerationFailed`.
    Enumerate,
    /// Open the device and answer `Opened` or `OpenFailed`.
    Open,
    /// Ask whether a kernel driver holds the interface.
    QueryKernelDriver(u8),
    /// Detach the kernel driver from the interface.
    DetachKernelDriver(u8),
    /// Claim the interface.
    ClaimInterface(u8),
    /// Read `size` bytes from the endpoint by an interrupt transfer that gives up after
    /// [`READ_TIMEOUT_SECONDS`], and answer `Report`, `Timeout` or `TransferFailed`.
    Read { endpoint: u8, size: u16 },
    /// Hand the events on in their order, answering `SendFailed` if that fails; then read as
    /// for `Read`.
    Forward { events: Vec<Input>, endpoint: u8, size: u16 },
    /// Stop: the reader has ended for this reason.
    Finish(ReaderError),
}

/// What a [`ReaderAction`] holds, as plain values.
pub enum ReaderActionView {
    Enumerate,
    Open,
    QueryKernelDriver(u8),
    DetachKernelDriver(u8),
    ClaimInterface(u8),
    Read { endpoint: u8, size: u16 },
    Forward { events: Seq<Input>, endpoint: u8, size: u16 },
    Finish(ReaderError),
}

impl View for ReaderAction {
    type V = ReaderActionView;

    open spec fn view(&self) -> ReaderActionView {
        match self {
            ReaderAction::Enumerate => ReaderActionView::Enumerate,
            ReaderAction::Open => ReaderActionView::Open,
            ReaderAction::QueryKernelDriver(interface) => ReaderActionView::QueryKernelDriver(
                *interface,
            ),
            ReaderAction::DetachKernelDriver(interface) => ReaderActionView::DetachKernelDriver(
                *interface,
            ),
            ReaderAction::ClaimInterface(interface) => ReaderActionView::ClaimInterface(*interface),
            ReaderAction::Read { endpoint, size } => ReaderActionView::Read {
                endpoint: *endpoint,
                size: *size,
            },
            ReaderAction::Forward { events, endpoint, size } => ReaderActionView::Forward {
                events: events@,
                endpoint: *endpoint,
                size: *size,
            },
            ReaderAction::Finish(error) => ReaderActionView::Finish(*error),
        }
    }
}

/// The position of the first attached device with the given bus number and address.
pub open spec fn sought(attached: Seq<UsbDevice>, bus_number: u8, address: u8) -> Option<int>
    decreases attached.len(),
{
    if attached.len() == 0 {
        None
    } else {
        match sought(attached.drop_last(), bus_number, address) {
            Some(position) => Some(position),
            None => if attached.last().bus_number == bus_number && attached.last().address
                == address {
                Some(attached.len() - 1)
            } else {
                None
            },
        }
    }
}

/// A device found among the first `count` attached is the one found in the whole list.
pub proof fn lemma_sought_stays(attached: Seq<UsbDevice>, bus_number: u8, address: u8, count: int)
    requires
        0 <= count <= attached.len(),
        sought(attached.take(count), bus_number, address) is Some,
    ensures
        sought(attached, bus_number, address) == sought(attached.take(count), bus_number, address),
    decreases attached.len() - count,
{
    if count < attached.len() {
        assert(attached.take(count + 1).drop_last() =~= attached.take(count));
        lemma_sought_stays(attached, bus_number, address, count + 1);
    } else {
        assert(attached.take(count) =~= attached);
    }
}

/// Finds the first attached device with the given bus number and address.
pub fn seek(attached: &Vec<UsbDevice>, bus_number: u8, address: u8) -> (found: Option<usize>)
    ensures
        found matches Some(position) ==> position < attached@.len() && sought(
            attached@,
            bus_number,
            address,
        ) == Some(position as int),
        found is None ==> sought(attached@, bus_number, address) is None,
{
    let mut k: usize = 0;
    assert(attached@.take(0) =~= Seq::empty());
    while k < attached.len()
        invariant
            k <= attached.len(),
            sought(attached@.take(k as int), bus_number, address) is None,
        decreases attached.len() - k,
    {
        assert(attached@.take(k + 1).drop_last() =~= attached@.take(k as int));
        if attached[k].bus_number == bus_number && attached[k].address == address {
            proof {
                lemma_sought_stays(attached@, bus_number, address, k + 1);
            }
            return Some(k);
        }
        k += 1;
    }
    assert(attached@.take(attached@.len() as int) =~= attached@);
    None
}

/// The state after the search: the reader ends where its device is not attached, or has no
/// endpoint that serves reports of `packet_size` bytes; the device is then not opened.
pub open spec fn searched(
    attached: Seq<UsbDevice>,
    bus_number: u8,
    address: u8,
    packet_size: u16,
) -> ReaderState {
    match sought(attached, bus_number, address) {
        None => ReaderState::Terminated(ReaderError::DeviceAccess),
        Some(position) => match resolved(attached[position], packet_size) {
            None => ReaderState::Terminated(ReaderError::EndpointNotFound),
            Some(target) => ReaderState::EndpointResolved(target),
        },
    }
}

/// The state that follows on an event that needs no more than the state to be judged; the
/// same state for an event that answers no request of the state.
pub open spec fn next_state(state: ReaderState, event: ReaderEvent) -> ReaderState {
    match (state, event) {
        (ReaderState::Searching, ReaderEvent::EnumerationFailed) => ReaderState::Terminated(
            ReaderError::DeviceAccess,
        ),
        (ReaderState::EndpointResolved(target), ReaderEvent::Opened) => ReaderState::Opened(target),
        (ReaderState::EndpointResolved(_), ReaderEvent::OpenFailed) => ReaderState::Terminated(
            ReaderError::DeviceAccess,
        ),
        (ReaderState::Opened(target), ReaderEvent::KernelDriver(active)) => if active {
            ReaderState::Detaching(target)
        } else {
            ReaderState::Claiming(target)
        },
        (ReaderState::Opened(_), ReaderEvent::KernelDriverUnknown) => ReaderState::Terminated(
            ReaderError::DeviceAccess,
        ),
        (ReaderState::Detaching(target), ReaderEvent::Detached) => ReaderState::Claiming(target),
        (ReaderState::Detaching(_), ReaderEvent::DetachFailed) => ReaderState::Terminated(
            ReaderError::DeviceAccess,
        ),
        (ReaderState::Claiming(target), ReaderEvent::Claimed) => if target.transfer
            == TransferType::Interrupt {
            ReaderState::Streaming(target)
        } else {
            ReaderState::Terminated(ReaderError::IncompatibleTransfer)
        },
        (ReaderState::Claiming(_), ReaderEvent::ClaimFailed) => ReaderState::Terminated(
            ReaderError::DeviceAccess,
        ),
        (ReaderState::Streaming(_), ReaderEvent::TransferFailed) => ReaderState::Terminated(
            ReaderError::Transfer,
        ),
        (ReaderState::Streaming(_), ReaderEvent::SendFailed) => ReaderState::Terminated(
            ReaderError::SendFailed,
        ),
        _ => state,
    }
}

/// The request that a state waits for the answer to.
pub open spec fn request(state: ReaderState, packet_size: u16) -> ReaderActionView {
    match state {
        ReaderState::Searching => ReaderActionView::Enumerate,
        ReaderState::EndpointResolved(_) => ReaderActionView::Open,
        ReaderState::Opened(target) => ReaderActionView::QueryKernelDriver(target.interface),
        ReaderState::Detaching(target) => ReaderActionView::DetachKernelDriver(target.interface),
        ReaderState::Claiming(target) => ReaderActionView::ClaimInterface(target.interface),
        ReaderState::Streaming(target) => ReaderActionView::Read {
            endpoint: target.endpoint,
            size: packet_size,
        },
        ReaderState::Terminated(error) => ReaderActionView::Finish(error),
    }
}

/// The buffer after a read has brought `data`: the bytes read lie at its start, as far as
/// they fit, and the rest is as before.
pub open spec fn refilled(buffer: Seq<u8>, data: Seq<u8>) -> Seq<u8> {
    Seq::new(
        buffer.len(),
        |i: int|
            if i < data.len() {
                data[i]
            } else {
                buffer[i]
            },
    )
}

/// The reader of one device: what it reads, what it remembers of the last report, and where
/// it stands.
pub struct Reader {
    bus_number: u8,
    address: u8,
    mapping: DeviceMap,
    mapper: MapInput,
    buffer: Vec<u8>,
    state: ReaderState,
}

impl Reader {
    /// The reader remembers every input of its mapping, its buffer holds one report, and
    /// the mapping is well formed. Every reader that [`Self::new`] gives is, and stays so.
    pub closed spec fn fitted(&self) -> bool {
        &&& self.mapping@.well_formed()
        &&& self.buffer@.len() == self.mapping.packet_size
        &&& self.mapper@.pressed.len() == self.mapping.digitals@.len()
        &&& self.mapper@.analogs.len() == self.mapping.analogs@.len()
    }

    /// Bus number of the device.
    pub closed spec fn bus_number(&self) -> u8 {
        self.bus_number
    }

    /// Address of the device on its bus.
    pub closed spec fn address(&self) -> u8 {
        self.address
    }

    /// The mapping of the device.
    pub closed spec fn mapping(&self) -> DeviceMapView {
        self.mapping@
    }

    /// What is remembered of the last report.
    pub closed spec fn mapper(&self) -> MapInputView {
        self.mapper@
    }

    /// The bytes of the last report.
    pub closed spec fn buffer(&self) -> Seq<u8> {
        self.buffer@
    }

    /// Where the reader stands.
    pub closed spec fn state(&self) -> ReaderState {
        self.state
    }

    /// The request that the reader waits for the answer to.
    pub open spec fn pending(&self) -> ReaderActionView {
        request(self.state(), self.mapping().packet_size)
    }

    /// The events that a report of these bytes gives rise to.
    pub open spec fn report_events(&self, data: Seq<u8>) -> Seq<Input> {
        self.mapper().events(
            self.mapping().digitals,
            self.mapping().analogs,
            refilled(self.buffer(), data),
        )
    }

    /// `after` and `action` are what the reader `self` comes to on `event`. The device and
    /// its mapping stay. While searching, the attached devices decide; while streaming, a
    /// report is decoded against what the reader remembers and its events are handed on;
    /// otherwise the state alone decides, and the reader asks what its new state waits for.
    pub open spec fn steps_to(&self, event: ReaderEvent, after: Reader, action: ReaderActionView)
        -> bool {
        &&& after.bus_number() == self.bus_number()
        &&& after.address() == self.address()
        &&& after.mapping() == self.mapping()
        &&& match (self.state(), event) {
            (ReaderState::Searching, ReaderEvent::Enumerated(attached)) => {
                &&& after.state() == searched(
                    attached@,
                    self.bus_number(),
                    self.address(),
                    self.mapping().packet_size,
                )
                &&& after.mapper() == self.mapper()
                &&& after.buffer() == self.buffer()
                &&& action == after.pending()
            },
            (ReaderState::Streaming(target), ReaderEvent::Report(data)) => {
                &&& after.state() == self.state()
                &&& after.buffer() == refilled(self.buffer(), data@)
                &&& after.mapper() == self.mapper().after(
                    self.mapping().digitals,
                    self.mapping().analogs,
                    after.buffer(),
                )
                &&& action == ReaderActionView::Forward {
                    events: self.report_events(data@),
                    endpoint: target.endpoint,
                    size: self.mapping().packet_size,
                }
            },
            _ => {
                &&& after.state() == next_state(self.state(), event)
                &&& after.mapper() == self.mapper()
                &&& after.buffer() == self.buffer()
                &&& action == after.pending()
            },
        }
    }

    /// A reader for the device at this bus number and address. It starts out searching, and
    /// its first request is `Enumerate`. There is none for a mapping that is not well formed.
    pub fn new(bus_number: u8, address: u8, mapping: DeviceMap) -> (reader: Option<Reader>)
        ensures
            reader is Some <==> mapping.well_formed(),
            reader matches Some(reader) ==> {
                &&& reader.bus_number() == bus_number
                &&& reader.address() == address
                &&& reader.mapping() == mapping@
                &&& reader.state() == ReaderState::Searching
                &&& reader.buffer() == Seq::new(mapping.packet_size as nat, |i: int| 0u8)
                &&& reader.mapper().pressed == Seq::new(
                    mapping.digitals@.len(),
                    |i: int| false,
                )
                &&& reader.mapper().analogs == Seq::new(mapping.analogs@.len(), |j: int| 0u8)
                &&& reader.fitted()
            },
    {
        if !mapping.is_well_formed() {
            return None;
        }
        let mapper = MapInput::new(mapping.digitals.len(), mapping.analogs.len());
        let mut buffer: Vec<u8> = Vec::new();
        let mut k: u16 = 0;
        while k < mapping.packet_size
            invariant
                k <= mapping.packet_size,
                buffer@ == Seq::new(k as nat, |i: int| 0u8),
            decreases mapping.packet_size - k,
        {
            buffer.push(0);
            assert(buffer@ =~= Seq::new((k + 1) as nat, |i: int| 0u8));
            k += 1;
        }
        Some(Reader { bus_number, address, mapping, mapper, buffer, state: ReaderState::Searching })
    }

    /// The action that asks for what the reader waits for.
    pub fn ask(&self) -> (action: ReaderAction)
        ensures
            action@ == self.pending(),
    {
        let size = self.mapping.packet_size;
        match self.state {
            ReaderState::Searching => ReaderAction::Enumerate,
            ReaderState::EndpointResolved(_) => ReaderAction::Open,
            ReaderState::Opened(target) => ReaderAction::QueryKernelDriver(target.interface),
            ReaderState::Detaching(target) => ReaderAction::DetachKernelDriver(target.interface),
            ReaderState::Claiming(target) => ReaderAction::ClaimInterface(target.interface),
            ReaderState::Streaming(target) => ReaderAction::Read { endpoint: target.endpoint, size },
            ReaderState::Terminated(error) => ReaderAction::Finish(error),
        }
    }

    /// Takes the reader one step on: judges what has happened and says what to do next.
    pub fn step(&mut self, event: ReaderEvent) -> (action: ReaderAction)
        requires
            old(self).fitted(),
        ensures
            final(self).fitted(),
            old(self).steps_to(event, *final(self), action@),
    {
        match (self.state, &event) {
            (ReaderState::Searching, ReaderEvent::Enumerated(attached)) => {
                self.state = match seek(attached, self.bus_number, self.address) {
                    None => ReaderState::Terminated(ReaderError::DeviceAccess),
                    Some(position) => match resolve_endpoint(
                        &attached[position],
                        self.mapping.packet_size,
                    ) {
                        None => ReaderState::Terminated(ReaderError::EndpointNotFound),
                        Some(target) => ReaderState::EndpointResolved(target),
                    },
                };
                self.ask()
            },
            (ReaderState::Streaming(target), ReaderEvent::Report(data)) => {
                let ghost before = self.buffer@;
                let mut k: usize = 0;
                while k < data.len() && k < self.buffer.len()
                    invariant
                        self.buffer@.len() == before.len(),
                        self.bus_number == old(self).bus_number,
                        self.address == old(self).address,
                        self.mapping == old(self).mapping,
                        self.mapper == old(self).mapper,
                        self.state == old(self).state,
                        old(self).fitted(),
                        before == old(self).buffer@,
                        forall|i: int|
                            0 <= i < before.len() ==> self.buffer@[i] == if i < k && i < data@.len() {
                                data@[i]
                            } else {
                                before[i]
                            },
                    decreases data.len() - k,
                {
                    self.buffer[k] = data[k];
                    k += 1;
                }
                assert(self.buffer@ =~= refilled(before, data@));
                proof {
                    let digitals = digital_views(self.mapping.digitals@);
                    let analogs = analog_views(self.mapping.analogs@);
                    assert(self.mapping@.digitals == digitals);
                    assert(self.mapping@.analogs == analogs);
                    assert(digitals.len() == self.mapping.digitals@.len());
                    assert(analogs.len() == self.mapping.analogs@.len());
                    assert(self.mapping@.inside_packet());
                    assert(self.mapper@.fits(digitals, analogs, self.buffer@));
                }
                let events = self.mapper.generate_input(
                    self.mapping.digitals.as_slice(),
                    self.mapping.analogs.as_slice(),
                    self.buffer.as_slice(),
                );
                ReaderAction::Forward {
                    events,
                    endpoint: target.endpoint,
                    size: self.mapping.packet_size,
                }
            },
            (ReaderState::Searching, ReaderEvent::EnumerationFailed) => {
                self.state = ReaderState::Terminated(ReaderError::DeviceAccess);
                self.ask()
            },
            (ReaderState::EndpointResolved(target), ReaderEvent::Opened) => {
                self.state = ReaderState::Opened(target);
                self.ask()
            },
            (ReaderState::EndpointResolved(_), ReaderEvent::OpenFailed) => {
                self.state = ReaderState::Terminated(ReaderError::DeviceAccess);
                self.ask()
            },
            (ReaderState::Opened(target), ReaderEvent::KernelDriver(active)) => {
                self.state = if *active {
                    ReaderState::Detaching(target)
                } else {
                    ReaderState::Claiming(target)
                };
                self.ask()
            },
            (ReaderState::Opened(_), ReaderEvent::KernelDriverUnknown) => {
                self.state = ReaderState::Terminated(ReaderError::DeviceAccess);
                self.ask()
            },
            (ReaderState::Detaching(target), ReaderEvent::Detached) => {
                self.state = ReaderState::Claiming(target);
                self.ask()
            },
            (ReaderState::Detaching(_), ReaderEvent::DetachFailed) => {
                self.state = ReaderState::Terminated(ReaderError::DeviceAccess);
                self.ask()
            },
            (ReaderState::Claiming(target), ReaderEvent::Claimed) => {
                self.state = match target.transfer {
                    TransferType::Interrupt => ReaderState::Streaming(target),
                    _ => ReaderState::Terminated(ReaderError::IncompatibleTransfer),
                };
                self.ask()
            },
            (ReaderState::Claiming(_), ReaderEvent::ClaimFailed) => {
                self.state = ReaderState::Terminated(ReaderError::DeviceAccess);
                self.ask()
            },
            (ReaderState::Streaming(_), ReaderEvent::TransferFailed) => {
                self.state = ReaderState::Terminated(ReaderError::Transfer);
                self.ask()
            },
            (ReaderState::Streaming(_), ReaderEvent::SendFailed) => {
                self.state = ReaderState::Terminated(ReaderError::SendFailed);
                self.ask()
            },
            _ => self.ask(),
        }
    }
}

/// A reader that has ended stays ended, for the same reason, whatever is reported to it, and
/// asks only to be stopped.
pub proof fn lemma_ended_stays(reader: Reader, event: ReaderEvent, after: Reader, action: ReaderActionView)
    requires
        reader.state() is Terminated,
        reader.steps_to(event, after, action),
    ensures
        after.state() == reader.state(),
        action == ReaderActionView::Finish(reader.state()->Terminated_0),
{
}

/// Reading begins only on an endpoint that is read by interrupt transfers.
pub proof fn lemma_streams_by_interrupt(state: ReaderState, event: ReaderEvent)
    requires
        !(state is Streaming),
        next_state(state, event) is Streaming,
    ensures
        next_state(state, event)->Streaming_0.transfer == TransferType::Interrupt,
{
}

/// A list has a first serving endpoint exactly if it has a serving endpoint, and the first
/// one serves.
pub proof fn lemma_first_input_serves(endpoints: Seq<Endpoint>, packet_size: u16)
    ensures
        first_input(endpoints, packet_size) is Some <==> exists|e: int|
            0 <= e < endpoints.len() && serves(#[trigger] endpoints[e], packet_size),
        first_input(endpoints, packet_size) matches Some(found) ==> serves(found, packet_size),
    decreases endpoints.len(),
{
    if endpoints.len() > 0 && !serves(endpoints[0], packet_size) {
        let rest = endpoints.drop_first();
        lemma_first_input_serves(rest, packet_size);
        if exists|e: int| 0 <= e < endpoints.len() && serves(#[trigger] endpoints[e], packet_size) {
            let e = choose|e: int|
                0 <= e < endpoints.len() && serves(#[trigger] endpoints[e], packet_size);
            assert(serves(rest[e - 1], packet_size));
        }
        if exists|e: int| 0 <= e < rest.len() && serves(#[trigger] rest[e], packet_size) {
            let e = choose|e: int| 0 <= e < rest.len() && serves(#[trigger] rest[e], packet_size);
            assert(serves(endpoints[e + 1], packet_size));
        }
    } else if endpoints.len() > 0 {
        assert(serves(endpoints[0], packet_size));
    }
}

/// What is kept of a list is not empty exactly if something of the list is kept.
pub proof fn lemma_kept_some<A, B>(items: Seq<A>, keep: spec_fn(A) -> Option<B>)
    ensures
        items.filter_map(keep).len() > 0 <==> exists|i: int|
            0 <= i < items.len() && (#[trigger] keep(items[i])) is Some,
    decreases items.len(),
{
    if items.len() > 0 {
        let earlier = items.drop_last();
        lemma_kept_some(earlier, keep);
        if exists|i: int| 0 <= i < earlier.len() && (#[trigger] keep(earlier[i])) is Some {
            let i = choose|i: int| 0 <= i < earlier.len() && (#[trigger] keep(earlier[i])) is Some;
            assert(keep(items[i]) is Some);
        }
        if exists|i: int| 0 <= i < items.len() && (#[trigger] keep(items[i])) is Some {
            let i = choose|i: int| 0 <= i < items.len() && (#[trigger] keep(items[i])) is Some;
            if i < earlier.len() {
                assert(keep(earlier[i]) is Some);
            } else {
                assert(keep(items.last()) is Some);
            }
        }
    }
}

/// Parts laid end to end are not empty exactly if some part is not empty.
pub proof fn lemma_laid_some<A, B>(parts: Seq<A>, entries: spec_fn(A) -> Seq<B>)
    ensures
        parts.flat_map(entries).len() > 0 <==> exists|i: int|
            0 <= i < parts.len() && (#[trigger] entries(parts[i])).len() > 0,
    decreases parts.len(),
{
    if parts.len() > 0 {
        let earlier = parts.drop_last();
        assert(parts =~= earlier.push(parts.last()));
        earlier.lemma_flat_map_push(entries, parts.last());
        lemma_laid_some(earlier, entries);
        if exists|i: int| 0 <= i < earlier.len() && (#[trigger] entries(earlier[i])).len() > 0 {
            let i = choose|i: int|
                0 <= i < earlier.len() && (#[trigger] entries(earlier[i])).len() > 0;
            assert(entries(parts[i]).len() > 0);
        }
        if exists|i: int| 0 <= i < parts.len() && (#[trigger] entries(parts[i])).len() > 0 {
            let i = choose|i: int| 0 <= i < parts.len() && (#[trigger] entries(parts[i])).len() > 0;
            if i < earlier.len() {
                assert(entries(earlier[i]).len() > 0);
            } else {
                assert(entries(parts.last()).len() > 0);
            }
        }
    } else {
        assert(parts.flat_map(entries) =~= Seq::empty());
    }
}

/// The reader of a device finds an endpoint to read from exactly on the devices that a pass
/// over the bus takes for compatible with the mapping.
pub proof fn lemma_resolved_where_compatible(device: UsbDevice, packet_size: u16)
    ensures
        resolved(device, packet_size) is Some <==> device.has_endpoint_for(packet_size),
{
    let by_interface = |interface: Interface| interface_offers(interface, packet_size);
    lemma_laid_some(device.interfaces@, by_interface);
    assert forall|i: int| 0 <= i < device.interfaces@.len() implies (interface_offers(
        #[trigger] device.interfaces@[i],
        packet_size,
    ).len() > 0 <==> exists|d: int, e: int|
        0 <= d < device.interfaces@[i].descriptors@.len() && 0 <= e
            < device.interfaces@[i].descriptors@[d].endpoints@.len() && serves(
            #[trigger] device.interfaces@[i].descriptors@[d].endpoints@[e],
            packet_size,
        )) by {
        let interface = device.interfaces@[i];
        let by_setting = |descriptor: InterfaceDescriptor|
            offered(interface.number, descriptor, packet_size);
        lemma_kept_some(interface.descriptors@, by_setting);
        assert forall|d: int| 0 <= d < interface.descriptors@.len() implies ((
        #[trigger] by_setting(interface.descriptors@[d])) is Some <==> exists|e: int|
            0 <= e < interface.descriptors@[d].endpoints@.len() && serves(
                #[trigger] interface.descriptors@[d].endpoints@[e],
                packet_size,
            )) by {
            lemma_first_input_serves(interface.descriptors@[d].endpoints@, packet_size);
        }
        if interface_offers(interface, packet_size).len() > 0 {
            let d = choose|d: int|
                0 <= d < interface.descriptors@.len() && (#[trigger] by_setting(
                    interface.descriptors@[d],
                )) is Some;
            let e = choose|e: int|
                0 <= e < interface.descriptors@[d].endpoints@.len() && serves(
                    #[trigger] interface.descriptors@[d].endpoints@[e],
                    packet_size,
                );
            assert(serves(device.interfaces@[i].descriptors@[d].endpoints@[e], packet_size));
        }
        if exists|d: int, e: int|
            0 <= d < device.interfaces@[i].descriptors@.len() && 0 <= e
                < device.interfaces@[i].descriptors@[d].endpoints@.len() && serves(
                #[trigger] device.interfaces@[i].descriptors@[d].endpoints@[e],
                packet_size,
            ) {
            let (d, e) = choose|d: int, e: int|
                0 <= d < device.interfaces@[i].descriptors@.len() && 0 <= e
                    < device.interfaces@[i].descriptors@[d].endpoints@.len() && serves(
                    #[trigger] device.interfaces@[i].descriptors@[d].endpoints@[e],
                    packet_size,
                );
            assert(serves(interface.descriptors@[d].endpoints@[e], packet_size));
            assert(by_setting(interface.descriptors@[d]) is Some);
        }
    }
    if resolved(device, packet_size) is Some {
        let i = choose|i: int|
            0 <= i < device.interfaces@.len() && (#[trigger] by_interface(
                device.interfaces@[i],
            )).len() > 0;
        assert(interface_offers(device.interfaces@[i], packet_size).len() > 0);
        let (d, e) = choose|d: int, e: int|
            0 <= d < device.interfaces@[i].descriptors@.len() && 0 <= e
                < device.interfaces@[i].descriptors@[d].endpoints@.len() && serves(
                #[trigger] device.interfaces@[i].descriptors@[d].endpoints@[e],
                packet_size,
            );
        assert(serves(device.interfaces@[i].descriptors@[d].endpoints@[e], packet_size));
    }
    if device.has_endpoint_for(packet_size) {
        let (i, d, e) = choose|i: int, d: int, e: int|
            0 <= i < device.interfaces@.len() && 0 <= d < device.interfaces@[i].descriptors@.len()
                && 0 <= e < device.interfaces@[i].descriptors@[d].endpoints@.len() && serves(
                #[trigger] device.interfaces@[i].descriptors@[d].endpoints@[e],
                packet_size,
            );
        assert(interface_offers(device.interfaces@[i], packet_size).len() > 0);
        assert(by_interface(device.interfaces@[i]).len() > 0);
    }
}

/// A reader that finds its device without an endpoint that serves the reports of its mapping
/// ends with `EndpointNotFound` and asks only to be stopped: the device is not opened. Where
/// the device has such an endpoint, the reader asks for it to be opened.
pub proof fn lemma_search_judges_endpoints(
    reader: Reader,
    attached: Vec<UsbDevice>,
    after: Reader,
    action: ReaderActionView,
)
    requires
        reader.state() == ReaderState::Searching,
        sought(attached@, reader.bus_number(), reader.address()) is Some,
        reader.steps_to(ReaderEvent::Enumerated(attached), after, action),
    ensures
        ({
            let found = attached@[sought(attached@, reader.bus_number(), reader.address())->Some_0];
            if found.has_endpoint_for(reader.mapping().packet_size) {
                after.state() is EndpointResolved && action == ReaderActionView::Open
            } else {
                after.state() == ReaderState::Terminated(ReaderError::EndpointNotFound) && action
                    == ReaderActionView::Finish(ReaderError::EndpointNotFound)
            }
        }),
{
    let found = attached@[sought(attached@, reader.bus_number(), reader.address())->Some_0];
    lemma_resolved_where_compatible(found, reader.mapping().packet_size);
}

} // verus!
