use crate::device_definition::{DeviceMapDefinition, MAX_INPUTS};
use crate::device_mapping::{DeviceMap, DeviceMaps, InputUidView, listed_inputs};
use crate::error::{ConfigError, ConfigErrorKind};
use std::collections::HashMap;
use vstd::prelude::*;

verus! {

/// Number of inputs of the first `count` definitions.
pub open spec fn inputs_before(definitions: Seq<(u32, DeviceMapDefinition)>, count: int) -> nat
    decreases count,
{
    if count <= 0 {
        0
    } else {
        inputs_before(definitions, count - 1) + definitions[count - 1].1.input_count()
    }
}

/// The definition at `position` has the signature of an earlier one.
pub open spec fn repeats_signature(
    definitions: Seq<(u32, DeviceMapDefinition)>,
    position: int,
) -> bool {
    exists|earlier: int|
        0 <= earlier < position && (#[trigger] definitions[earlier]).0 == definitions[position].0
}

/// The device that the definition at `position` describes, its inputs numbered after those of
/// the definitions before it.
pub open spec fn device_at(definitions: Seq<(u32, DeviceMapDefinition)>, position: int)
    -> crate::device_mapping::DeviceMapView {
    definitions[position].1.device(inputs_before(definitions, position) as int)
}

/// What is wrong with the definition at `position`, if anything.
pub open spec fn entry_fault(definitions: Seq<(u32, DeviceMapDefinition)>, position: int) -> Option<
    ConfigErrorKind,
> {
    if definitions[position].1.too_many_names() {
        Some(ConfigErrorKind::TooManyNames)
    } else if inputs_before(definitions, position + 1) > MAX_INPUTS {
        Some(ConfigErrorKind::TooManyInputs)
    } else if !device_at(definitions, position).inside_packet() {
        Some(ConfigErrorKind::IndexOutsidePacket)
    } else if !device_at(definitions, position).masks_set() {
        Some(ConfigErrorKind::EmptyMask)
    } else if repeats_signature(definitions, position) {
        Some(ConfigErrorKind::DuplicateDevice)
    } else {
        None
    }
}

/// The fault of the first faulty definition among the first `count`, with its position.
pub open spec fn first_fault(definitions: Seq<(u32, DeviceMapDefinition)>, count: int) -> Option<
    ConfigError,
>
    decreases count,
{
    if count <= 0 {
        None
    } else {
        match first_fault(definitions, count - 1) {
            Some(fault) => Some(fault),
            None => match entry_fault(definitions, count - 1) {
                Some(kind) => Some(ConfigError { kind, position: (count - 1) as usize }),
                None => None,
            },
        }
    }
}

/// A fault among the first `count` definitions is the fault of any longer list.
pub proof fn lemma_fault_stays(definitions: Seq<(u32, DeviceMapDefinition)>, count: int, more: int)
    requires
        0 <= count <= more,
        first_fault(definitions, count) is Some,
    ensures
        first_fault(definitions, more) == first_fault(definitions, count),
    decreases more - count,
{
    if count < more {
        lemma_fault_stays(definitions, count, more - 1);
    }
}

/// Two tables that agree on the devices that `order` names list the same inputs.
pub proof fn lemma_listing_frame(
    before: Map<u32, DeviceMap>,
    after: Map<u32, DeviceMap>,
    order: Seq<u32>,
)
    requires
        forall|i: int|
            0 <= i < order.len() ==> before.contains_key(#[trigger] order[i]) == after.contains_key(
                order[i],
            ) && (before.contains_key(order[i]) ==> before[order[i]] == after[order[i]]),
    ensures
        listed_inputs(before, order) == listed_inputs(after, order),
{
    let old_inputs = |signature: u32|
        if before.contains_key(signature) {
            before[signature]@.inputs()
        } else {
            Seq::<InputUidView>::empty()
        };
    let new_inputs = |signature: u32|
        if after.contains_key(signature) {
            after[signature]@.inputs()
        } else {
            Seq::<InputUidView>::empty()
        };
    assert(order.map_values(old_inputs) =~= order.map_values(new_inputs));
}

impl DeviceMaps {
    /// The table holds, under each signature of `definitions`, the device that its definition
    /// describes, numbered after the inputs of the definitions before it.
    pub open spec fn holds(&self, definitions: Seq<(u32, DeviceMapDefinition)>) -> bool {
        &&& self.order@ == definitions.map_values(|entry: (u32, DeviceMapDefinition)| entry.0)
        &&& forall|i: int|
            0 <= i < definitions.len() ==> self.devices@.contains_key(
                (#[trigger] definitions[i]).0,
            ) && self.devices@[definitions[i].0]@ == device_at(definitions, i)
    }

    /// Creates the device mapping from definitions, each with the signature of its device.
    /// Unique ids are given out in the order of the list, in each device to the digitals
    /// declared one by one, then to those of the byte definitions, then to the analogs. The
    /// first faulty definition is reported, and nothing is built.
    pub fn new(definitions: &Vec<(u32, DeviceMapDefinition)>) -> (loaded: Result<
        DeviceMaps,
        ConfigError,
    >)
        ensures
            match loaded {
                Ok(maps) => {
                    &&& first_fault(definitions@, definitions@.len() as int) is None
                    &&& maps.holds(definitions@)
                    &&& maps.well_formed()
                    &&& maps.inputs().len() == inputs_before(
                        definitions@,
                        definitions@.len() as int,
                    )
                },
                Err(fault) => first_fault(definitions@, definitions@.len() as int) == Some(fault),
            },
    {
        let mut devices: HashMap<u32, DeviceMap> = HashMap::new();
        let mut order: Vec<u32> = Vec::new();
        let mut next: u32 = 0;
        let ghost signature_of = |entry: (u32, DeviceMapDefinition)| entry.0;
        assert(listed_inputs(devices@, order@) =~= Seq::empty());
        let mut i: usize = 0;
        while i < definitions.len()
            invariant
                i <= definitions.len(),
                signature_of == |entry: (u32, DeviceMapDefinition)| entry.0,
                first_fault(definitions@, i as int) is None,
                order@ == definitions@.take(i as int).map_values(signature_of),
                order@.no_duplicates(),
                forall|signature: u32|
                    devices@.contains_key(signature) <==> order@.contains(signature),
                forall|j: int|
                    0 <= j < i ==> devices@.contains_key((#[trigger] definitions@[j]).0)
                        && devices@[definitions@[j].0]@ == device_at(definitions@, j),
                forall|signature: u32|
                    devices@.contains_key(signature) ==> (#[trigger] devices@[signature]).well_formed(),
                next == inputs_before(definitions@, i as int),
                next <= MAX_INPUTS,
                listed_inputs(devices@, order@).len() == next,
                forall|u: int|
                    0 <= u < next ==> (#[trigger] listed_inputs(devices@, order@)[u]).uid() == u,
            decreases definitions.len() - i,
        {
            let signature = definitions[i].0;
            let built = definitions[i].1.build(next);
            proof {
                assert(inputs_before(definitions@, i + 1) == next
                    + definitions@[i as int].1.input_count());
            }
            let device = match built {
                Ok(device) => device,
                Err(kind) => {
                    proof {
                        lemma_fault_stays(definitions@, i + 1, definitions@.len() as int);
                    }
                    return Err(ConfigError { kind, position: i });
                },
            };
            if !device.is_inside_packet() {
                proof {
                    lemma_fault_stays(definitions@, i + 1, definitions@.len() as int);
                }
                return Err(ConfigError { kind: ConfigErrorKind::IndexOutsidePacket, position: i });
            }
            if !device.has_masks_set() {
                proof {
                    lemma_fault_stays(definitions@, i + 1, definitions@.len() as int);
                }
                return Err(ConfigError { kind: ConfigErrorKind::EmptyMask, position: i });
            }
            if devices.contains_key(&signature) {
                proof {
                    assert(order@.contains(signature));
                    let earlier = choose|earlier: int|
                        0 <= earlier < order@.len() && order@[earlier] == signature;
                    assert(definitions@[earlier].0 == signature);
                    assert(repeats_signature(definitions@, i as int));
                    lemma_fault_stays(definitions@, i + 1, definitions@.len() as int);
                }
                return Err(ConfigError { kind: ConfigErrorKind::DuplicateDevice, position: i });
            }
            proof {
                assert(!repeats_signature(definitions@, i as int)) by {
                    if repeats_signature(definitions@, i as int) {
                        let earlier = choose|earlier: int|
                            0 <= earlier < i && (#[trigger] definitions@[earlier]).0
                                == definitions@[i as int].0;
                        assert(order@[earlier] == signature);
                    }
                }
                assert(entry_fault(definitions@, i as int) is None);
            }
            proof {
                assert(device@.digitals.len() == device.digitals@.len());
                assert(device@.analogs.len() == device.analogs@.len());
                assert(device.digitals@.len() + device.analogs@.len()
                    == definitions@[i as int].1.input_count());
            }
            let count: usize = device.digitals.len() + device.analogs.len();
            let ghost old_devices = devices@;
            let ghost old_order = order@;
            let ghost added = device@.inputs();
            devices.insert(signature, device);
            order.push(signature);
            proof {
                assert(definitions@.take(i + 1).map_values(signature_of) =~= old_order.push(
                    signature,
                ));
                assert forall|j: int| 0 <= j < i + 1 implies devices@.contains_key(
                    (#[trigger] definitions@[j]).0,
                ) && devices@[definitions@[j].0]@ == device_at(definitions@, j) by {
                    if j < i {
                        assert(old_order[j] == definitions@[j].0);
                    }
                }
                assert forall|k: u32| devices@.contains_key(k) <==> order@.contains(k) by {
                    if old_order.contains(k) {
                        let at = choose|at: int| 0 <= at < old_order.len() && old_order[at] == k;
                        assert(order@[at] == k);
                    }
                    if k == signature {
                        assert(order@[i as int] == k);
                    }
                }
                let new_inputs = |k: u32|
                    if devices@.contains_key(k) {
                        devices@[k]@.inputs()
                    } else {
                        Seq::<InputUidView>::empty()
                    };
                old_order.lemma_flat_map_push(new_inputs, signature);
                lemma_listing_frame(old_devices, devices@, old_order);
                assert(listed_inputs(devices@, order@) =~= listed_inputs(old_devices, old_order)
                    + added);
                assert(added.len() == count);
                assert forall|u: int| 0 <= u < next + count implies (#[trigger] listed_inputs(
                    devices@,
                    order@,
                )[u]).uid() == u by {
                    if u >= next {
                        assert(listed_inputs(devices@, order@)[u] == added[u - next]);
                    } else {
                        assert(listed_inputs(devices@, order@)[u] == listed_inputs(
                            old_devices,
                            old_order,
                        )[u]);
                    }
                }
            }
            next = next + count as u32;
            i += 1;
        }
        proof {
            assert(definitions@.take(definitions@.len() as int) =~= definitions@);
        }
        Ok(DeviceMaps { devices, order })
    }
}

/// A list of definitions in which some byte definition has nine names or more is not loaded.
pub proof fn lemma_many_names_rejected(definitions: Seq<(u32, DeviceMapDefinition)>, position: int)
    requires
        0 <= position < definitions.len(),
        definitions[position].1.too_many_names(),
    ensures
        first_fault(definitions, definitions.len() as int) is Some,
{
    assert(entry_fault(definitions, position) is Some);
    assert(first_fault(definitions, position + 1) is Some);
    lemma_fault_stays(definitions, position + 1, definitions.len() as int);
}

} // verus!
