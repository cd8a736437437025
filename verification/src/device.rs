use crate::device_mapping::{DeviceMap, DeviceMaps};
use vstd::prelude::*;

verus! {

/// Direction of an endpoint, seen from the host.
#[derive(Debug, Clone, Copy, PartialEq, Eq, Structural)]
pub enum Direction {
    In,
    Out,
}

/// Kind of transfer that an endpoint serves.
#[derive(Debug, Clone, Copy, PartialEq, Eq, Structural)]
pub enum TransferType {
    Control,
    Isochronous,
    Bulk,
    Interrupt,
}

/// An endpoint of an interface, as its descriptor gives it.
#[derive(Debug, Clone, Copy, PartialEq, Eq, Structural)]
pub struct Endpoint {
    pub address: u8,
    pub direction: Direction,
    pub transfer_type: TransferType,
    pub max_packet_size: u16,
}

/// One setting of an interface.
#[derive(Debug, Clone)]
pub struct InterfaceDescriptor {
    pub endpoints: Vec<Endpoint>,
}

/// An interface of the active configuration of a device, with its settings.
#[derive(Debug, Clone)]
pub struct Interface {
    pub number: u8,
    pub descriptors: Vec<InterfaceDescriptor>,
}

/// An attached device as one pass over the bus finds it.
#[derive(Debug, Clone)]
pub struct UsbDevice {
    pub bus_number: u8,
    pub address: u8,
    pub vendor_id: u16,
    pub product_id: u16,
    /// The interfaces of the active configuration.
    pub interfaces: Vec<Interface>,
}

/// The identity under which a device is held while it is attached: bus number and address.
pub open spec fn identity_of(bus_number: u8, address: u8) -> u16 {
    (bus_number * 256 + address) as u16
}

/// The signature under which the mapping of a device is found: vendor and product.
pub open spec fn signature_of(vendor_id: u16, product_id: u16) -> u32 {
    (vendor_id * 65536 + product_id) as u32
}

/// Computes the identity of a device.
pub fn identity(bus_number: u8, address: u8) -> (id: u16)
    ensures
        id == identity_of(bus_number, address),
{
    bus_number as u16 * 256 + address as u16
}

/// Computes the signature of a device.
pub fn signature(vendor_id: u16, product_id: u16) -> (key: u32)
    ensures
        key == signature_of(vendor_id, product_id),
{
    vendor_id as u32 * 65536 + product_id as u32
}

/// An endpoint that reports of `packet_size` bytes can be read from.
pub open spec fn serves(endpoint: Endpoint, packet_size: u16) -> bool {
    endpoint.direction == Direction::In && endpoint.max_packet_size == packet_size
}

impl UsbDevice {
    /// The identity of the device.
    pub open spec fn identity(&self) -> u16 {
        identity_of(self.bus_number, self.address)
    }

    /// The signature of the device.
    pub open spec fn signature(&self) -> u32 {
        signature_of(self.vendor_id, self.product_id)
    }

    /// Some setting of some interface has an endpoint that serves reports of `packet_size`
    /// bytes.
    pub open spec fn has_endpoint_for(&self, packet_size: u16) -> bool {
        exists|i: int, d: int, e: int|
            0 <= i < self.interfaces@.len() && 0 <= d < self.interfaces@[i].descriptors@.len()
                && 0 <= e < self.interfaces@[i].descriptors@[d].endpoints@.len() && serves(
                #[trigger] self.interfaces@[i].descriptors@[d].endpoints@[e],
                packet_size,
            )
    }

    /// Tests whether the device has an endpoint that serves reports of `packet_size` bytes.
    pub fn is_compatible(&self, packet_size: u16) -> (compatible: bool)
        ensures
            compatible == self.has_endpoint_for(packet_size),
    {
        let mut i: usize = 0;
        while i < self.interfaces.len()
            invariant
                i <= self.interfaces.len(),
                forall|a: int, d: int, e: int|
                    0 <= a < i && 0 <= d < self.interfaces@[a].descriptors@.len() && 0 <= e
                        < self.interfaces@[a].descriptors@[d].endpoints@.len() ==> !serves(
                        #[trigger] self.interfaces@[a].descriptors@[d].endpoints@[e],
                        packet_size,
                    ),
            decreases self.interfaces.len() - i,
        {
            let interface = &self.interfaces[i];
            let mut d: usize = 0;
            while d < interface.descriptors.len()
                invariant
                    d <= interface.descriptors.len(),
                    i < self.interfaces@.len(),
                    *interface == self.interfaces@[i as int],
                    forall|b: int, e: int|
                        0 <= b < d && 0 <= e < interface.descriptors@[b].endpoints@.len()
                            ==> !serves(
                            #[trigger] interface.descriptors@[b].endpoints@[e],
                            packet_size,
                        ),
                decreases interface.descriptors.len() - d,
            {
                let descriptor = &interface.descriptors[d];
                let mut e: usize = 0;
                while e < descriptor.endpoints.len()
                    invariant
                        e <= descriptor.endpoints.len(),
                        i < self.interfaces@.len(),
                        d < self.interfaces@[i as int].descriptors@.len(),
                        *descriptor == self.interfaces@[i as int].descriptors@[d as int],
                        forall|c: int|
                            0 <= c < e ==> !serves(#[trigger] descriptor.endpoints@[c], packet_size),
                    decreases descriptor.endpoints.len() - e,
                {
                    let endpoint = &descriptor.endpoints[e];
                    if endpoint.direction == Direction::In && endpoint.max_packet_size
                        == packet_size {
                        assert(serves(
                            self.interfaces@[i as int].descriptors@[d as int].endpoints@[e as int],
                            packet_size,
                        ));
                        return true;
                    }
                    e += 1;
                }
                d += 1;
            }
            i += 1;
        }
        false
    }
}

/// Something that knows which devices are being read.
pub trait HasDevice {
    /// The identities of the devices that are being read.
    spec fn addresses(&self) -> Set<u16>;

    /// Whether the device with this identity is being read.
    fn has_address(&self, address: u16) -> (found: bool)
        ensures
            found == self.addresses().contains(address),
    ;
}

/// The devices that are being read, by identity.
#[derive(Debug, Clone)]
pub struct DeviceList {
    mapped: Vec<u16>,
}

impl View for DeviceList {
    type V = Set<u16>;

    closed spec fn view(&self) -> Set<u16> {
        self.mapped@.to_set()
    }
}

impl DeviceList {
    /// A list that holds no device.
    pub fn new() -> (list: DeviceList)
        ensures
            list@ == Set::<u16>::empty(),
    {
        let list = DeviceList { mapped: Vec::new() };
        assert(list@ =~= Set::<u16>::empty());
        list
    }

    /// Takes the device with this identity into the list.
    pub fn add_device(&mut self, address: u16)
        ensures
            final(self)@ == old(self)@.insert(address),
    {
        let ghost before = self.mapped@;
        self.mapped.push(address);
        proof {
            before.lemma_push_to_set_commute(address);
        }
    }

    /// Takes the device with this identity out of the list.
    pub fn remove_device(&mut self, address: u16)
        ensures
            final(self)@ == old(self)@.remove(address),
    {
        let ghost before = self.mapped@;
        let mut kept: Vec<u16> = Vec::new();
        let mut k: usize = 0;
        assert(before.take(0).to_set() =~= Set::<u16>::empty());
        assert(kept@.to_set() =~= Set::<u16>::empty());
        while k < self.mapped.len()
            invariant
                k <= self.mapped.len(),
                self.mapped@ == before,
                kept@.to_set() == before.take(k as int).to_set().remove(address),
            decreases self.mapped.len() - k,
        {
            let held = self.mapped[k];
            let ghost earlier = kept@;
            proof {
                assert(before.take(k + 1) =~= before.take(k as int).push(held));
                before.take(k as int).lemma_push_to_set_commute(held);
            }
            if held != address {
                kept.push(held);
                proof {
                    earlier.lemma_push_to_set_commute(held);
                }
            }
            assert(kept@.to_set() =~= before.take(k + 1).to_set().remove(address));
            k += 1;
        }
        assert(before.take(before.len() as int) =~= before);
        self.mapped = kept;
    }
}

impl HasDevice for DeviceList {
    open spec fn addresses(&self) -> Set<u16> {
        self@
    }

    fn has_address(&self, address: u16) -> (found: bool) {
        let mut k: usize = 0;
        while k < self.mapped.len()
            invariant
                k <= self.mapped.len(),
                forall|at: int| 0 <= at < k ==> self.mapped@[at] != address,
            decreases self.mapped.len() - k,
        {
            if self.mapped[k] == address {
                assert(self.mapped@.contains(address));
                return true;
            }
            k += 1;
        }
        false
    }
}

/// A device that is to be read from now on, with a copy of its mapping.
#[derive(Debug, Clone)]
pub struct DiscoveredDevice {
    pub identity: u16,
    pub bus_number: u8,
    pub address: u8,
    pub mapping: DeviceMap,
}

/// An attached device is to be read: it is not being read yet, it has a mapping, and it has
/// an endpoint that serves the reports that the mapping describes.
pub open spec fn eligible(device: UsbDevice, held: Set<u16>, table: Map<u32, DeviceMap>) -> bool {
    &&& !held.contains(device.identity())
    &&& table.contains_key(device.signature())
    &&& device.has_endpoint_for(table[device.signature()].packet_size)
}

/// The identities that are being read once the first `count` attached devices have been
/// looked at: those held before, and those of the devices that were taken.
pub open spec fn held_after(
    attached: Seq<UsbDevice>,
    held: Set<u16>,
    table: Map<u32, DeviceMap>,
    count: int,
) -> Set<u16>
    decreases count,
{
    if count <= 0 {
        held
    } else {
        let earlier = held_after(attached, held, table, count - 1);
        if eligible(attached[count - 1], earlier, table) {
            earlier.insert(attached[count - 1].identity())
        } else {
            earlier
        }
    }
}

/// The positions of the devices that are taken among the first `count` attached: each is
/// eligible when its turn comes, so of two with one identity only the first is taken.
pub open spec fn taken(
    attached: Seq<UsbDevice>,
    held: Set<u16>,
    table: Map<u32, DeviceMap>,
    count: int,
) -> Seq<int>
    decreases count,
{
    if count <= 0 {
        Seq::empty()
    } else {
        let earlier = taken(attached, held, table, count - 1);
        if eligible(attached[count - 1], held_after(attached, held, table, count - 1), table) {
            earlier.push(count - 1)
        } else {
            earlier
        }
    }
}

impl DiscoveredDevice {
    /// The device found is the attached `device`, with its mapping from `table`.
    pub open spec fn is_device(&self, device: UsbDevice, table: Map<u32, DeviceMap>) -> bool {
        &&& self.identity == device.identity()
        &&& self.bus_number == device.bus_number
        &&& self.address == device.address
        &&& table.contains_key(device.signature())
        &&& self.mapping@ == table[device.signature()]@
    }
}

/// The devices found are the attached devices at the positions `taken`, in that order.
pub open spec fn found_at(
    found: Seq<DiscoveredDevice>,
    attached: Seq<UsbDevice>,
    table: Map<u32, DeviceMap>,
    taken: Seq<int>,
) -> bool {
    &&& found.len() == taken.len()
    &&& forall|k: int|
        0 <= k < found.len() ==> (#[trigger] found[k]).is_device(attached[taken[k]], table)
}

/// The positions taken among the first `count` attached devices lie below `count` and rise.
pub proof fn lemma_taken_rises(
    attached: Seq<UsbDevice>,
    held: Set<u16>,
    table: Map<u32, DeviceMap>,
    count: int,
)
    requires
        0 <= count <= attached.len(),
    ensures
        forall|k: int|
            0 <= k < taken(attached, held, table, count).len() ==> 0 <= (#[trigger] taken(
                attached,
                held,
                table,
                count,
            )[k]) < count,
        forall|j: int, k: int|
            0 <= j < k < taken(attached, held, table, count).len() ==> taken(
                attached,
                held,
                table,
                count,
            )[j] < taken(attached, held, table, count)[k],
    decreases count,
{
    if count > 0 {
        lemma_taken_rises(attached, held, table, count - 1);
        let earlier = taken(attached, held, table, count - 1);
        let now = taken(attached, held, table, count);
        assert forall|k: int| 0 <= k < now.len() implies 0 <= #[trigger] now[k] < count by {
            if k < earlier.len() {
                assert(now[k] == earlier[k]);
            }
        }
        assert forall|j: int, k: int| 0 <= j < k < now.len() implies now[j] < now[k] by {
            assert(now[j] == earlier[j]);
            if k < earlier.len() {
                assert(now[k] == earlier[k]);
            }
        }
    }
}

/// Picks, in the order of the bus, the attached devices that are to be read from now on:
/// those not yet being read that have a mapping and an endpoint for its reports.
pub fn discover_devices<D: HasDevice>(
    attached: &Vec<UsbDevice>,
    discovered: &D,
    mappings: &DeviceMaps,
) -> (found: Vec<DiscoveredDevice>)
    ensures
        found_at(
            found@,
            attached@,
            mappings.devices@,
            taken(attached@, discovered.addresses(), mappings.devices@, attached@.len() as int),
        ),
{
    let ghost held = discovered.addresses();
    let ghost table = mappings.devices@;
    let mut found: Vec<DiscoveredDevice> = Vec::new();
    let mut fresh = DeviceList::new();
    let mut i: usize = 0;
    while i < attached.len()
        invariant
            i <= attached.len(),
            held == discovered.addresses(),
            table == mappings.devices@,
            held_after(attached@, held, table, i as int) == held.union(fresh@),
            found_at(found@, attached@, table, taken(attached@, held, table, i as int)),
        decreases attached.len() - i,
    {
        let device = &attached[i];
        let id = identity(device.bus_number, device.address);
        let ghost earlier = held.union(fresh@);
        let ghost positions = taken(attached@, held, table, i as int);
        let mut take = false;
        if !discovered.has_address(id) && !fresh.has_address(id) {
            let key = signature(device.vendor_id, device.product_id);
            if let Some(mapping) = mappings.devices.get(&key) {
                if device.is_compatible(mapping.packet_size) {
                    take = true;
                    let ghost before = found@;
                    found.push(
                        DiscoveredDevice {
                            identity: id,
                            bus_number: device.bus_number,
                            address: device.address,
                            mapping: mapping.duplicate(),
                        },
                    );
                    fresh.add_device(id);
                    proof {
                        assert(held.union(fresh@) =~= earlier.insert(id));
                        let longer = positions.push(i as int);
                        assert forall|k: int| 0 <= k < found@.len() implies (
                        #[trigger] found@[k]).is_device(attached@[longer[k]], table) by {
                            if k < before.len() {
                                assert(found@[k] == before[k]);
                            }
                        }
                    }
                }
            }
        }
        assert(take == eligible(attached@[i as int], earlier, table));
        i += 1;
    }
    found
}

} // verus!
