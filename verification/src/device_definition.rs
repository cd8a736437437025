use crate::device_mapping::{
    AnalogView, DeviceAnalogInput, DeviceDigitalInput, DeviceMap, DeviceMapView, DigitalView,
    analog_views, digital_views,
};
use crate::error::ConfigErrorKind;
use vstd::prelude::*;
use vstd::string::StringExecFns;

verus! {

/// Largest number of inputs that can be told apart by a unique id.
pub const MAX_INPUTS: u32 = 65536;

/// Individual button mapped to a bit of a byte in the report of a device.
#[derive(Debug, Clone)]
pub struct DeviceButtonDefinition {
    /// Name of the digital input.
    pub name: String,
    /// Index of the byte in the device report.
    pub index: u8,
    /// Bit mask which is set when this digital input is pressed.
    pub mask: u8,
}

/// Individual byte in the device report mapped to at most eight digitals in bit order.
#[derive(Debug, Clone)]
pub struct DeviceByteDefinition {
    /// Index of the byte in the device report.
    pub index: u8,
    /// Names of the digitals in bit order, lowest bit first; `-` leaves a bit out.
    pub names: Vec<String>,
}

/// Individual byte in the device report mapped to an analog input.
#[derive(Debug, Clone)]
pub struct DeviceAnalogDefinition {
    /// Name of the analog input.
    pub name: String,
    /// Index of the byte in the device report.
    pub index: u8,
    /// The output value of each raw byte, as the bit pattern of a single precision number.
    pub output: [u32; 256],
}

/// Definition of a device as it is read from a configuration file.
#[derive(Debug, Clone)]
pub struct DeviceMapDefinition {
    /// Name of the device; profiles refer to the device by it.
    pub name: String,
    /// Number of bytes in every report of the device.
    pub packet_size: u16,
    /// Digitals given one by one, each with its byte and mask.
    pub digitals: Option<Vec<DeviceButtonDefinition>>,
    /// Bytes whose bits are digitals, named in bit order.
    pub bytes: Option<Vec<DeviceByteDefinition>>,
    /// Analog inputs, each with its byte.
    pub analogs: Option<Vec<DeviceAnalogDefinition>>,
}

/// A digital input that a definition gives rise to, before it has its unique id.
pub struct DigitalSlot {
    pub name: Seq<char>,
    pub index: u8,
    pub mask: u8,
}

/// The name that leaves a bit of a byte definition out.
pub open spec fn placeholder() -> Seq<char> {
    seq!['-']
}

/// The mask of the bit at `position`, counted from the lowest.
pub open spec fn bit_mask(position: int) -> u8 {
    if 0 <= position < 8 {
        1u8 << (position as u8)
    } else {
        0
    }
}

/// The digitals of one byte definition: one for each name but the placeholder, in bit order.
pub open spec fn byte_slots(index: u8, names: Seq<String>) -> Seq<DigitalSlot> {
    names.map(|position: int, name: String| DigitalSlot { name: name@, index, mask: bit_mask(position) })
        .filter(|slot: DigitalSlot| slot.name != placeholder())
}

/// The digital of one button definition.
pub open spec fn button_slot(button: DeviceButtonDefinition) -> DigitalSlot {
    DigitalSlot { name: button.name@, index: button.index, mask: button.mask }
}

/// The digital inputs made of `slots`, with consecutive unique ids from `base` on.
pub open spec fn numbered_digitals(slots: Seq<DigitalSlot>, base: int) -> Seq<DigitalView> {
    Seq::new(
        slots.len(),
        |i: int|
            DigitalView {
                name: slots[i].name,
                uid: (base + i) as u16,
                index: slots[i].index,
                mask: slots[i].mask,
            },
    )
}

/// The analog inputs made of `analogs`, with consecutive unique ids from `base` on.
pub open spec fn numbered_analogs(analogs: Seq<DeviceAnalogDefinition>, base: int) -> Seq<
    AnalogView,
> {
    Seq::new(
        analogs.len(),
        |j: int|
            AnalogView {
                name: analogs[j].name@,
                uid: (base + j) as u16,
                index: analogs[j].index,
                output: analogs[j].output@,
            },
    )
}

impl DeviceMapDefinition {
    /// The button definitions, none where the list is left out.
    pub open spec fn declared_digitals(&self) -> Seq<DeviceButtonDefinition> {
        match self.digitals {
            Some(buttons) => buttons@,
            None => Seq::empty(),
        }
    }

    /// The byte definitions, none where the list is left out.
    pub open spec fn declared_bytes(&self) -> Seq<DeviceByteDefinition> {
        match self.bytes {
            Some(bytes) => bytes@,
            None => Seq::empty(),
        }
    }

    /// The analog definitions, none where the list is left out.
    pub open spec fn declared_analogs(&self) -> Seq<DeviceAnalogDefinition> {
        match self.analogs {
            Some(analogs) => analogs@,
            None => Seq::empty(),
        }
    }

    /// The digitals of the device in the order in which they get their unique ids: those
    /// declared one by one, then those of the byte definitions.
    pub open spec fn digital_slots(&self) -> Seq<DigitalSlot> {
        self.button_slots() + self.expanded_slots()
    }

    /// Number of inputs that the definition gives rise to.
    pub open spec fn input_count(&self) -> nat {
        self.digital_slots().len() + self.declared_analogs().len()
    }

    /// Some byte definition lists more than eight names.
    pub open spec fn too_many_names(&self) -> bool {
        exists|b: int|
            0 <= b < self.declared_bytes().len() && (#[trigger] self.declared_bytes()[b]).names@.len()
                > 8
    }

    /// The device that the definition describes, where its first input gets the unique id
    /// `base`: digitals first, then analogs.
    pub open spec fn device(&self, base: int) -> DeviceMapView {
        DeviceMapView {
            name: self.name@,
            packet_size: self.packet_size,
            digitals: numbered_digitals(self.digital_slots(), base),
            analogs: numbered_analogs(self.declared_analogs(), base + self.digital_slots().len()),
        }
    }

    /// Tests whether some byte definition lists more than eight names.
    pub fn has_too_many_names(&self) -> (found: bool)
        ensures
            found == self.too_many_names(),
    {
        match &self.bytes {
            Some(bytes) => {
                let mut b: usize = 0;
                while b < bytes.len()
                    invariant
                        b <= bytes.len(),
                        bytes@ == self.declared_bytes(),
                        forall|k: int| 0 <= k < b ==> (#[trigger] bytes@[k]).names@.len() <= 8,
                    decreases bytes.len() - b,
                {
                    if bytes[b].names.len() > 8 {
                        return true;
                    }
                    b += 1;
                }
                false
            },
            None => false,
        }
    }
}

impl DeviceMapDefinition {
    /// The digitals declared one by one.
    pub open spec fn button_slots(&self) -> Seq<DigitalSlot> {
        self.declared_digitals().map_values(|button: DeviceButtonDefinition| button_slot(button))
    }

    /// The digitals of the byte definitions.
    pub open spec fn expanded_slots(&self) -> Seq<DigitalSlot> {
        self.declared_bytes().flat_map(
            |byte: DeviceByteDefinition| byte_slots(byte.index, byte.names@),
        )
    }

    /// Builds the digital inputs, numbered from `base` on. `None` where their unique ids
    /// would pass the largest one.
    fn build_digitals(&self, base: u32) -> (built: Option<Vec<DeviceDigitalInput>>)
        requires
            base <= MAX_INPUTS,
            !self.too_many_names(),
        ensures
            built is Some <==> base + self.digital_slots().len() <= MAX_INPUTS,
            built is Some ==> digital_views(built->Some_0@) == numbered_digitals(
                self.digital_slots(),
                base as int,
            ),
    {
        let mut digitals: Vec<DeviceDigitalInput> = Vec::new();
        let mut next: u32 = base;
        let ghost mut done: Seq<DigitalSlot> = Seq::empty();
        if let Some(buttons) = &self.digitals {
            let mut i: usize = 0;
            while i < buttons.len()
                invariant
                    i <= buttons.len(),
                    buttons@ == self.declared_digitals(),
                    done == self.button_slots().take(i as int),
                    next == base + i,
                    next <= MAX_INPUTS,
                    digital_views(digitals@) == numbered_digitals(done, base as int),
                decreases buttons.len() - i,
            {
                if next >= MAX_INPUTS {
                    return None;
                }
                let button = &buttons[i];
                let ghost before = digitals@;
                digitals.push(
                    DeviceDigitalInput {
                        name: button.name.clone(),
                        uid: next as u16,
                        index: button.index,
                        mask: button.mask,
                    },
                );
                proof {
                    let slot = button_slot(*button);
                    assert(self.button_slots().take(i + 1) =~= done.push(slot));
                    assert(digital_views(digitals@) =~= digital_views(before).push(
                        digitals@[i as int]@,
                    ));
                    assert(numbered_digitals(done.push(slot), base as int) =~= numbered_digitals(
                        done,
                        base as int,
                    ).push(digitals@[i as int]@));
                    done = done.push(slot);
                }
                next += 1;
                i += 1;
            }
            assert(self.button_slots().take(buttons@.len() as int) =~= self.button_slots());
        } else {
            assert(self.button_slots() =~= Seq::empty());
        }
        assert(done == self.button_slots());
        if let Some(bytes) = &self.bytes {
            let dash = String::from_str("-");
            proof {
                reveal_strlit("-");
                assert(dash@ =~= placeholder());
            }
            let ghost slots = |byte: DeviceByteDefinition| byte_slots(byte.index, byte.names@);
            assert(bytes@.take(0).flat_map(slots) =~= Seq::empty());
            let mut b: usize = 0;
            while b < bytes.len()
                invariant
                    b <= bytes.len(),
                    bytes@ == self.declared_bytes(),
                    !self.too_many_names(),
                    dash@ == placeholder(),
                    slots == |byte: DeviceByteDefinition| byte_slots(byte.index, byte.names@),
                    done == self.button_slots() + bytes@.take(b as int).flat_map(slots),
                    next == base + done.len(),
                    next <= MAX_INPUTS,
                    digital_views(digitals@) == numbered_digitals(done, base as int),
                decreases bytes.len() - b,
            {
                let byte = &bytes[b];
                assert(byte.names@.len() <= 8);
                let ghost start = done;
                let mut mask: u8 = 1;
                let mut p: usize = 0;
                assert(byte_slots(byte.index, byte.names@.take(0)) =~= Seq::empty());
                assert(bit_mask(0) == 1u8) by (bit_vector);
                while p < byte.names.len()
                    invariant
                        p <= byte.names.len() <= 8,
                        b < bytes.len(),
                        byte == bytes@[b as int],
                        bytes@ == self.declared_bytes(),
                        dash@ == placeholder(),
                        slots == |byte: DeviceByteDefinition| byte_slots(byte.index, byte.names@),
                        start == self.button_slots() + bytes@.take(b as int).flat_map(slots),
                        mask == bit_mask(p as int),
                        done == start + byte_slots(byte.index, byte.names@.take(p as int)),
                        next == base + done.len(),
                        next <= MAX_INPUTS,
                        digital_views(digitals@) == numbered_digitals(done, base as int),
                    decreases byte.names.len() - p,
                {
                    let name = &byte.names[p];
                    proof {
                        lemma_byte_slots_step(byte.index, byte.names@, p as int);
                    }
                    if !(*name == dash) {
                        if next >= MAX_INPUTS {
                            proof {
                                lemma_byte_slots_grow(byte.index, byte.names@, p + 1);
                                bytes@.lemma_flat_map_take_append(slots, b as int);
                                lemma_bytes_slots_grow(bytes@, b + 1);
                            }
                            return None;
                        }
                        let ghost before = digitals@;
                        digitals.push(
                            DeviceDigitalInput {
                                name: name.clone(),
                                uid: next as u16,
                                index: byte.index,
                                mask,
                            },
                        );
                        proof {
                            let slot = DigitalSlot {
                                name: name@,
                                index: byte.index,
                                mask: bit_mask(p as int),
                            };
                            let added = digitals@[digitals@.len() - 1]@;
                            assert(digital_views(digitals@) =~= digital_views(before).push(added));
                            assert(numbered_digitals(done.push(slot), base as int)
                                =~= numbered_digitals(done, base as int).push(added));
                            assert(start + byte_slots(byte.index, byte.names@.take(p + 1))
                                =~= done.push(slot));
                            done = done.push(slot);
                        }
                        next += 1;
                    }
                    proof {
                        let position = p as u8;
                        assert(position < 8 ==> (1u8 << position) << 1u8 == (if position < 7 {
                            1u8 << ((position + 1) as u8)
                        } else {
                            0u8
                        })) by (bit_vector);
                    }
                    mask = mask << 1u8;
                    p += 1;
                }
                proof {
                    assert(byte.names@.take(byte.names@.len() as int) =~= byte.names@);
                    bytes@.lemma_flat_map_take_append(slots, b as int);
                    assert(done =~= self.button_slots() + bytes@.take(b + 1).flat_map(slots));
                }
                b += 1;
            }
            assert(bytes@.take(bytes@.len() as int) =~= bytes@);
        } else {
            assert(self.expanded_slots() =~= Seq::empty());
            assert(done =~= self.digital_slots());
        }
        assert(done == self.digital_slots());
        Some(digitals)
    }
}

impl DeviceMapDefinition {
    /// Builds the analog inputs, numbered from `base` on. `None` where their unique ids would
    /// pass the largest one.
    fn build_analogs(&self, base: u32) -> (built: Option<Vec<DeviceAnalogInput>>)
        requires
            base <= MAX_INPUTS,
        ensures
            built is Some <==> base + self.declared_analogs().len() <= MAX_INPUTS,
            built is Some ==> analog_views(built->Some_0@) == numbered_analogs(
                self.declared_analogs(),
                base as int,
            ),
    {
        let mut analogs: Vec<DeviceAnalogInput> = Vec::new();
        if let Some(definitions) = &self.analogs {
            let mut next: u32 = base;
            let mut j: usize = 0;
            while j < definitions.len()
                invariant
                    j <= definitions.len(),
                    definitions@ == self.declared_analogs(),
                    next == base + j,
                    next <= MAX_INPUTS,
                    analog_views(analogs@) == numbered_analogs(
                        definitions@.take(j as int),
                        base as int,
                    ),
                decreases definitions.len() - j,
            {
                if next >= MAX_INPUTS {
                    return None;
                }
                let definition = &definitions[j];
                let ghost before = analogs@;
                analogs.push(
                    DeviceAnalogInput {
                        name: definition.name.clone(),
                        uid: next as u16,
                        index: definition.index,
                        output: definition.output,
                    },
                );
                proof {
                    let added = analogs@[j as int]@;
                    assert(analog_views(analogs@) =~= analog_views(before).push(added));
                    assert(numbered_analogs(definitions@.take(j + 1), base as int)
                        =~= numbered_analogs(definitions@.take(j as int), base as int).push(added));
                }
                next += 1;
                j += 1;
            }
            assert(definitions@.take(definitions@.len() as int) =~= definitions@);
        } else {
            assert(analog_views(analogs@) =~= numbered_analogs(Seq::empty(), base as int));
        }
        Some(analogs)
    }

    /// Builds the device that the definition describes, its inputs numbered from `base` on:
    /// digitals declared one by one, then those of the byte definitions in bit order, then
    /// analogs. A byte definition with more than eight names is refused, and so is a
    /// definition whose inputs would pass the largest unique id.
    pub fn build(&self, base: u32) -> (built: Result<DeviceMap, ConfigErrorKind>)
        ensures
            match built {
                Ok(device) => {
                    &&& !self.too_many_names()
                    &&& base + self.input_count() <= MAX_INPUTS
                    &&& device@ == self.device(base as int)
                },
                Err(kind) => if self.too_many_names() {
                    kind == ConfigErrorKind::TooManyNames
                } else {
                    kind == ConfigErrorKind::TooManyInputs && base + self.input_count()
                        > MAX_INPUTS
                },
            },
    {
        if self.has_too_many_names() {
            return Err(ConfigErrorKind::TooManyNames);
        }
        if base > MAX_INPUTS {
            return Err(ConfigErrorKind::TooManyInputs);
        }
        let digitals = match self.build_digitals(base) {
            Some(digitals) => digitals,
            None => {
                return Err(ConfigErrorKind::TooManyInputs);
            },
        };
        assert(digitals@.len() == digital_views(digitals@).len());
        let after: u32 = base + digitals.len() as u32;
        let analogs = match self.build_analogs(after) {
            Some(analogs) => analogs,
            None => {
                return Err(ConfigErrorKind::TooManyInputs);
            },
        };
        Ok(DeviceMap { name: self.name.clone(), packet_size: self.packet_size, digitals, analogs })
    }
}

/// The digitals of the first `count` names of a byte definition are among those of all names.
pub proof fn lemma_byte_slots_grow(index: u8, names: Seq<String>, count: int)
    requires
        0 <= count <= names.len(),
    ensures
        byte_slots(index, names.take(count)).len() <= byte_slots(index, names).len(),
{
    let slot = |position: int, name: String|
        DigitalSlot { name: name@, index, mask: bit_mask(position) };
    let named = |slot: DigitalSlot| slot.name != placeholder();
    assert(names.take(count).map(slot) =~= names.map(slot).take(count));
    names.map(slot).lemma_filter_take_len(named, count);
}

/// One more name adds one digital to those of a byte definition, unless it is the placeholder.
pub proof fn lemma_byte_slots_step(index: u8, names: Seq<String>, count: int)
    requires
        0 <= count < names.len(),
    ensures
        byte_slots(index, names.take(count + 1)) == if names[count]@ != placeholder() {
            byte_slots(index, names.take(count)).push(
                DigitalSlot { name: names[count]@, index, mask: bit_mask(count) },
            )
        } else {
            byte_slots(index, names.take(count))
        },
{
    let slot = |position: int, name: String|
        DigitalSlot { name: name@, index, mask: bit_mask(position) };
    let named = |slot: DigitalSlot| slot.name != placeholder();
    assert(names.take(count + 1).map(slot) =~= names.take(count).map(slot).push(
        slot(count, names[count]),
    ));
    names.take(count).map(slot).lemma_filter_push(slot(count, names[count]), named);
}

/// The digitals of the first `count` byte definitions are among those of all of them.
pub proof fn lemma_bytes_slots_grow(bytes: Seq<DeviceByteDefinition>, count: int)
    requires
        0 <= count <= bytes.len(),
    ensures
        bytes.take(count).flat_map(|byte: DeviceByteDefinition| byte_slots(byte.index, byte.names@)).len()
            <= bytes.flat_map(|byte: DeviceByteDefinition| byte_slots(byte.index, byte.names@)).len(),
    decreases bytes.len() - count,
{
    let slots = |byte: DeviceByteDefinition| byte_slots(byte.index, byte.names@);
    if count < bytes.len() {
        bytes.lemma_flat_map_take_append(slots, count);
        lemma_bytes_slots_grow(bytes, count + 1);
    } else {
        assert(bytes.take(count) =~= bytes);
    }
}

} // verus!
