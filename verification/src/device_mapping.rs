use std::collections::HashMap;
use vstd::prelude::*;

verus! {

/// Mapped digital input on a device. It has two states, pressed or not pressed.
#[derive(Debug, Clone)]
pub struct DeviceDigitalInput {
    /// Name of the digital input; profiles refer to the input by it.
    pub name: String,
    /// Unique id of the input, dense over all inputs of all devices.
    pub uid: u16,
    /// Index of the byte in the device report.
    pub index: u8,
    /// Bit mask that is set in that byte while the input is pressed.
    pub mask: u8,
}

/// What a [`DeviceDigitalInput`] holds, as plain values.
pub struct DigitalView {
    pub name: Seq<char>,
    pub uid: u16,
    pub index: u8,
    pub mask: u8,
}

impl View for DeviceDigitalInput {
    type V = DigitalView;

    open spec fn view(&self) -> DigitalView {
        DigitalView { name: self.name@, uid: self.uid, index: self.index, mask: self.mask }
    }
}

/// Mapped analog input on a device: one byte of the report, scaled into an output range.
#[derive(Debug, Clone)]
pub struct DeviceAnalogInput {
    /// Name of the input; profiles refer to the input by it.
    pub name: String,
    /// Unique id of the input, dense over all inputs of all devices.
    pub uid: u16,
    /// Index of the byte in the device report.
    pub index: u8,
    /// The output value of each raw byte, as the bit pattern of a single precision number.
    /// Entry `v` holds `v * (max - min) / 256 + min` for the configured range.
    pub output: [u32; 256],
}

/// What a [`DeviceAnalogInput`] holds, as plain values.
pub struct AnalogView {
    pub name: Seq<char>,
    pub uid: u16,
    pub index: u8,
    pub output: Seq<u32>,
}

impl View for DeviceAnalogInput {
    type V = AnalogView;

    open spec fn view(&self) -> AnalogView {
        AnalogView { name: self.name@, uid: self.uid, index: self.index, output: self.output@ }
    }
}

impl AnalogView {
    /// The output value that stands for the raw byte `value`.
    pub open spec fn convert(self, value: u8) -> u32 {
        self.output[value as int]
    }
}

impl DeviceAnalogInput {
    /// Convert a raw byte to the output interval.
    pub fn convert(&self, value: u8) -> (converted: u32)
        ensures
            converted == self@.convert(value),
    {
        self.output[value as usize]
    }
}

/// Mapping of a device.
#[derive(Debug, Clone)]
pub struct DeviceMap {
    /// Name of the device.
    pub name: String,
    /// Number of bytes in every report of the device.
    pub packet_size: u16,
    /// All the mapped digital inputs on the device.
    pub digitals: Vec<DeviceDigitalInput>,
    /// All the mapped analog inputs on the device.
    pub analogs: Vec<DeviceAnalogInput>,
}

/// What a [`DeviceMap`] holds, as plain values.
pub struct DeviceMapView {
    pub name: Seq<char>,
    pub packet_size: u16,
    pub digitals: Seq<DigitalView>,
    pub analogs: Seq<AnalogView>,
}

/// The views of a sequence of digital inputs.
pub open spec fn digital_views(digitals: Seq<DeviceDigitalInput>) -> Seq<DigitalView> {
    digitals.map_values(|d: DeviceDigitalInput| d@)
}

/// The views of a sequence of analog inputs.
pub open spec fn analog_views(analogs: Seq<DeviceAnalogInput>) -> Seq<AnalogView> {
    analogs.map_values(|a: DeviceAnalogInput| a@)
}

impl View for DeviceMap {
    type V = DeviceMapView;

    open spec fn view(&self) -> DeviceMapView {
        DeviceMapView {
            name: self.name@,
            packet_size: self.packet_size,
            digitals: digital_views(self.digitals@),
            analogs: analog_views(self.analogs@),
        }
    }
}

impl DeviceMapView {
    /// Every input reads a byte inside the report.
    pub open spec fn inside_packet(self) -> bool {
        &&& forall|i: int|
            0 <= i < self.digitals.len() ==> (#[trigger] self.digitals[i]).index
                < self.packet_size
        &&& forall|j: int|
            0 <= j < self.analogs.len() ==> (#[trigger] self.analogs[j]).index < self.packet_size
    }

    /// Every digital input has a bit to test.
    pub open spec fn masks_set(self) -> bool {
        forall|i: int| 0 <= i < self.digitals.len() ==> (#[trigger] self.digitals[i]).mask != 0
    }

    /// Every input reads a byte inside the report, and every digital input has a bit to test.
    pub open spec fn well_formed(self) -> bool {
        self.inside_packet() && self.masks_set()
    }
}

impl DeviceMap {
    /// Every input reads a byte inside the report, and every digital input has a bit to test.
    pub open spec fn well_formed(&self) -> bool {
        self@.well_formed()
    }

    /// Tests whether every input reads a byte inside the report.
    pub fn is_inside_packet(&self) -> (ok: bool)
        ensures
            ok == self@.inside_packet(),
    {
        let mut i: usize = 0;
        while i < self.digitals.len()
            invariant
                i <= self.digitals.len(),
                forall|k: int|
                    0 <= k < i ==> (#[trigger] self@.digitals[k]).index < self.packet_size,
            decreases self.digitals.len() - i,
        {
            let digital = &self.digitals[i];
            assert(self@.digitals[i as int] == digital@);
            if digital.index as u16 >= self.packet_size {
                return false;
            }
            i += 1;
        }
        let mut j: usize = 0;
        while j < self.analogs.len()
            invariant
                j <= self.analogs.len(),
                forall|k: int|
                    0 <= k < self.digitals.len() ==> (#[trigger] self@.digitals[k]).index
                        < self.packet_size,
                forall|k: int|
                    0 <= k < j ==> (#[trigger] self@.analogs[k]).index < self.packet_size,
            decreases self.analogs.len() - j,
        {
            let analog = &self.analogs[j];
            assert(self@.analogs[j as int] == analog@);
            if analog.index as u16 >= self.packet_size {
                return false;
            }
            j += 1;
        }
        true
    }

    /// Tests whether every digital input has a bit to test.
    pub fn has_masks_set(&self) -> (ok: bool)
        ensures
            ok == self@.masks_set(),
    {
        let mut i: usize = 0;
        while i < self.digitals.len()
            invariant
                i <= self.digitals.len(),
                forall|k: int| 0 <= k < i ==> (#[trigger] self@.digitals[k]).mask != 0,
            decreases self.digitals.len() - i,
        {
            let digital = &self.digitals[i];
            assert(self@.digitals[i as int] == digital@);
            if digital.mask == 0 {
                return false;
            }
            i += 1;
        }
        true
    }

    /// Tests whether the mapping is well formed.
    pub fn is_well_formed(&self) -> (ok: bool)
        ensures
            ok == self.well_formed(),
    {
        self.is_inside_packet() && self.has_masks_set()
    }

    /// A copy of the mapping.
    pub fn duplicate(&self) -> (copy: DeviceMap)
        ensures
            copy@ == self@,
    {
        let mut digitals: Vec<DeviceDigitalInput> = Vec::new();
        let mut i: usize = 0;
        while i < self.digitals.len()
            invariant
                i <= self.digitals.len(),
                digital_views(digitals@) == digital_views(self.digitals@).take(i as int),
            decreases self.digitals.len() - i,
        {
            let digital = &self.digitals[i];
            let ghost before = digitals@;
            digitals.push(
                DeviceDigitalInput {
                    name: digital.name.clone(),
                    uid: digital.uid,
                    index: digital.index,
                    mask: digital.mask,
                },
            );
            assert(digital_views(digitals@) =~= digital_views(before).push(digital@));
            assert(digital_views(self.digitals@).take(i + 1) =~= digital_views(
                self.digitals@,
            ).take(i as int).push(digital@));
            i += 1;
        }
        let mut analogs: Vec<DeviceAnalogInput> = Vec::new();
        let mut j: usize = 0;
        while j < self.analogs.len()
            invariant
                j <= self.analogs.len(),
                analog_views(analogs@) == analog_views(self.analogs@).take(j as int),
            decreases self.analogs.len() - j,
        {
            let analog = &self.analogs[j];
            let ghost before = analogs@;
            analogs.push(
                DeviceAnalogInput {
                    name: analog.name.clone(),
                    uid: analog.uid,
                    index: analog.index,
                    output: analog.output,
                },
            );
            assert(analog_views(analogs@) =~= analog_views(before).push(analog@));
            assert(analog_views(self.analogs@).take(j + 1) =~= analog_views(self.analogs@).take(
                j as int,
            ).push(analog@));
            j += 1;
        }
        assert(digital_views(self.digitals@).take(self.digitals@.len() as int)
            =~= digital_views(self.digitals@));
        assert(analog_views(self.analogs@).take(self.analogs@.len() as int) =~= analog_views(
            self.analogs@,
        ));
        DeviceMap {
            name: self.name.clone(),
            packet_size: self.packet_size,
            digitals,
            analogs,
        }
    }
}

/// A device input together with the name of its device and its unique id.
#[derive(Debug, Clone, PartialEq, Eq)]
pub enum DeviceInputUid {
    /// Device name, input name and unique id of a digital input.
    Digital(String, String, u16),
    /// Device name, input name and unique id of an analog input.
    Analog(String, String, u16),
}

/// What a [`DeviceInputUid`] holds, as plain values.
pub enum InputUidView {
    Digital(Seq<char>, Seq<char>, u16),
    Analog(Seq<char>, Seq<char>, u16),
}

impl InputUidView {
    /// Name of the device that the input belongs to.
    pub open spec fn device(self) -> Seq<char> {
        match self {
            InputUidView::Digital(device, _, _) => device,
            InputUidView::Analog(device, _, _) => device,
        }
    }

    /// Name of the input.
    pub open spec fn name(self) -> Seq<char> {
        match self {
            InputUidView::Digital(_, name, _) => name,
            InputUidView::Analog(_, name, _) => name,
        }
    }

    /// Unique id of the input.
    pub open spec fn uid(self) -> u16 {
        match self {
            InputUidView::Digital(_, _, uid) => uid,
            InputUidView::Analog(_, _, uid) => uid,
        }
    }
}

impl View for DeviceInputUid {
    type V = InputUidView;

    open spec fn view(&self) -> InputUidView {
        match self {
            DeviceInputUid::Digital(device, name, uid) => InputUidView::Digital(
                device@,
                name@,
                *uid,
            ),
            DeviceInputUid::Analog(device, name, uid) => InputUidView::Analog(device@, name@, *uid),
        }
    }
}

/// The views of a sequence of listed inputs.
pub open spec fn input_uid_views(inputs: Seq<DeviceInputUid>) -> Seq<InputUidView> {
    inputs.map_values(|input: DeviceInputUid| input@)
}

impl DeviceMapView {
    /// The inputs of the device with its name: digitals first, then analogs.
    pub open spec fn inputs(self) -> Seq<InputUidView> {
        self.digitals.map_values(|d: DigitalView| InputUidView::Digital(self.name, d.name, d.uid))
            + self.analogs.map_values(
            |a: AnalogView| InputUidView::Analog(self.name, a.name, a.uid),
        )
    }
}

/// The inputs of the devices that `order` names, device by device; a signature that `devices`
/// does not hold adds none.
pub open spec fn listed_inputs(devices: Map<u32, DeviceMap>, order: Seq<u32>) -> Seq<InputUidView> {
    order.flat_map(
        |signature: u32|
            if devices.contains_key(signature) {
                devices[signature]@.inputs()
            } else {
                Seq::empty()
            },
    )
}

/// All mapped devices by their signature, which is `vendor_id << 16 | product_id`.
#[derive(Debug, Clone)]
pub struct DeviceMaps {
    /// The devices by signature.
    pub devices: HashMap<u32, DeviceMap>,
    /// The signatures in the order in which the devices got their unique ids.
    pub order: Vec<u32>,
}

impl DeviceMaps {
    /// All inputs of all devices, in the order of their unique ids.
    pub open spec fn inputs(&self) -> Seq<InputUidView> {
        listed_inputs(self.devices@, self.order@)
    }

    /// `order` names each device once, every device is well formed, and the unique ids of the
    /// inputs count up from 0 in the order of [`Self::inputs`].
    pub open spec fn well_formed(&self) -> bool {
        &&& self.order@.no_duplicates()
        &&& forall|signature: u32|
            self.devices@.contains_key(signature) <==> self.order@.contains(signature)
        &&& forall|signature: u32|
            self.devices@.contains_key(signature) ==> (#[trigger] self.devices@[signature]).well_formed()
        &&& forall|u: int| 0 <= u < self.inputs().len() ==> (#[trigger] self.inputs()[u]).uid() == u
    }

    /// Returns list of all digital and analog inputs and their unique ids.
    pub fn get_inputs(&self) -> (inputs: Vec<DeviceInputUid>)
        ensures
            input_uid_views(inputs@) == self.inputs(),
    {
        let mut res: Vec<DeviceInputUid> = Vec::new();
        let ghost device_inputs = |signature: u32|
            if self.devices@.contains_key(signature) {
                self.devices@[signature]@.inputs()
            } else {
                Seq::<InputUidView>::empty()
            };
        assert(self.order@.take(0).flat_map(device_inputs) =~= Seq::empty());
        let mut d: usize = 0;
        while d < self.order.len()
            invariant
                d <= self.order.len(),
                device_inputs == |signature: u32|
                    if self.devices@.contains_key(signature) {
                        self.devices@[signature]@.inputs()
                    } else {
                        Seq::<InputUidView>::empty()
                    },
                input_uid_views(res@) == self.order@.take(d as int).flat_map(device_inputs),
            decreases self.order.len() - d,
        {
            let signature = self.order[d];
            let ghost start = input_uid_views(res@);
            proof {
                self.order@.lemma_flat_map_take_append(device_inputs, d as int);
            }
            if let Some(device) = self.devices.get(&signature) {
                let mut i: usize = 0;
                while i < device.digitals.len()
                    invariant
                        i <= device.digitals.len(),
                        input_uid_views(res@) == start + device@.digitals.take(i as int).map_values(
                            |d: DigitalView| InputUidView::Digital(device@.name, d.name, d.uid),
                        ),
                    decreases device.digitals.len() - i,
                {
                    let digital = &device.digitals[i];
                    let ghost before = res@;
                    res.push(
                        DeviceInputUid::Digital(
                            device.name.clone(),
                            digital.name.clone(),
                            digital.uid,
                        ),
                    );
                    proof {
                        let added = res@[res@.len() - 1]@;
                        assert(input_uid_views(res@) =~= input_uid_views(before).push(added));
                        assert(device@.digitals[i as int] == digital@);
                        assert(device@.digitals.take(i + 1).map_values(
                            |d: DigitalView| InputUidView::Digital(device@.name, d.name, d.uid),
                        ) =~= device@.digitals.take(i as int).map_values(
                            |d: DigitalView| InputUidView::Digital(device@.name, d.name, d.uid),
                        ).push(added));
                    }
                    i += 1;
                }
                assert(device@.digitals.take(device.digitals@.len() as int) =~= device@.digitals);
                let ghost middle = input_uid_views(res@);
                let mut j: usize = 0;
                while j < device.analogs.len()
                    invariant
                        j <= device.analogs.len(),
                        input_uid_views(res@) == middle + device@.analogs.take(j as int).map_values(
                            |a: AnalogView| InputUidView::Analog(device@.name, a.name, a.uid),
                        ),
                    decreases device.analogs.len() - j,
                {
                    let analog = &device.analogs[j];
                    let ghost before = res@;
                    res.push(
                        DeviceInputUid::Analog(device.name.clone(), analog.name.clone(), analog.uid),
                    );
                    proof {
                        let added = res@[res@.len() - 1]@;
                        assert(input_uid_views(res@) =~= input_uid_views(before).push(added));
                        assert(device@.analogs[j as int] == analog@);
                        assert(device@.analogs.take(j + 1).map_values(
                            |a: AnalogView| InputUidView::Analog(device@.name, a.name, a.uid),
                        ) =~= device@.analogs.take(j as int).map_values(
                            |a: AnalogView| InputUidView::Analog(device@.name, a.name, a.uid),
                        ).push(added));
                    }
                    j += 1;
                }
                assert(device@.analogs.take(device.analogs@.len() as int) =~= device@.analogs);
                assert(input_uid_views(res@) =~= start + device@.inputs());
            } else {
                assert(input_uid_views(res@) =~= start + device_inputs(signature));
            }
            d += 1;
        }
        assert(self.order@.take(self.order@.len() as int) =~= self.order@);
        res
    }
}

/// The unique ids of the listed inputs, in their order.
pub open spec fn listed_uids(inputs: Seq<InputUidView>) -> Seq<u16> {
    inputs.map_values(|input: InputUidView| input.uid())
}

/// In a well formed table of N inputs, the unique ids are the numbers from 0 to N - 1, each
/// given to one input: none is left out and none is given twice.
pub proof fn lemma_uids_dense(maps: DeviceMaps)
    requires
        maps.well_formed(),
    ensures
        maps.inputs().len() <= 65536,
        listed_uids(maps.inputs()) == Seq::new(maps.inputs().len(), |u: int| u as u16),
        listed_uids(maps.inputs()).no_duplicates(),
        listed_uids(maps.inputs()).to_set() == Set::new(|uid: u16| uid < maps.inputs().len()),
{
    let inputs = maps.inputs();
    let uids = listed_uids(inputs);
    if inputs.len() > 65536 {
        assert(inputs[65536].uid() == 65536);
    }
    assert forall|u: int| 0 <= u < uids.len() implies uids[u] == u as u16 by {
        assert(inputs[u].uid() == u);
    }
    assert(uids =~= Seq::new(inputs.len(), |u: int| u as u16));
    assert forall|uid: u16| uids.to_set().contains(uid) <==> uid < inputs.len() by {
        if uid < inputs.len() {
            assert(uids[uid as int] == uid);
        }
    }
    assert(uids.to_set() =~= Set::new(|uid: u16| uid < inputs.len()));
}

/// Every entry of every part is an entry of the parts laid end to end.
pub proof fn lemma_part_is_listed<A, B>(parts: Seq<A>, entries: spec_fn(A) -> Seq<B>, part: int, entry: int)
    requires
        0 <= part < parts.len(),
        0 <= entry < entries(parts[part]).len(),
    ensures
        exists|at: int|
            0 <= at < parts.flat_map(entries).len() && #[trigger] parts.flat_map(entries)[at]
                == entries(parts[part])[entry],
    decreases parts.len(),
{
    let earlier = parts.drop_last();
    assert(parts =~= earlier.push(parts.last()));
    earlier.lemma_flat_map_push(entries, parts.last());
    let laid = parts.flat_map(entries);
    if part == parts.len() - 1 {
        let at = earlier.flat_map(entries).len() + entry;
        assert(laid[at] == entries(parts[part])[entry]);
    } else {
        lemma_part_is_listed(earlier, entries, part, entry);
        let at = choose|at: int|
            0 <= at < earlier.flat_map(entries).len() && #[trigger] earlier.flat_map(entries)[at]
                == entries(earlier[part])[entry];
        assert(laid[at] == entries(parts[part])[entry]);
    }
}

/// In a well formed table every input of every device is listed, at the place of its unique
/// id: no input of any device is without a unique id of its own below the number of inputs.
pub proof fn lemma_device_inputs_listed(maps: DeviceMaps, signature: u32, entry: int)
    requires
        maps.well_formed(),
        maps.devices@.contains_key(signature),
        0 <= entry < maps.devices@[signature]@.inputs().len(),
    ensures
        maps.devices@[signature]@.inputs()[entry].uid() < maps.inputs().len(),
        maps.inputs()[maps.devices@[signature]@.inputs()[entry].uid() as int]
            == maps.devices@[signature]@.inputs()[entry],
{
    let inputs_of = |signature: u32|
        if maps.devices@.contains_key(signature) {
            maps.devices@[signature]@.inputs()
        } else {
            Seq::<InputUidView>::empty()
        };
    assert(maps.order@.contains(signature));
    let part = choose|part: int| 0 <= part < maps.order@.len() && maps.order@[part] == signature;
    lemma_part_is_listed(maps.order@, inputs_of, part, entry);
    let at = choose|at: int|
        0 <= at < maps.order@.flat_map(inputs_of).len() && #[trigger] maps.order@.flat_map(
            inputs_of,
        )[at] == inputs_of(maps.order@[part])[entry];
    assert(maps.inputs()[at].uid() == at);
}

} // verus!
