use crate::action::{Action, ActionView, KeyCommand, KeyCommandView, action_views, command_views};
use crate::device::{
    DeviceList, DiscoveredDevice, HasDevice, UsbDevice, discover_devices, eligible, found_at, held_after,
    taken,
};
use crate::device_mapping::{DeviceMap, DeviceMaps};
use crate::input::Input;
use crate::level::{PRESSED, RELEASED};
use crate::profile_definition::{Profile, Profiles};
use vstd::prelude::*;

verus! {

/// Keeps the mapping of all devices and the identities of the devices that are being read.
pub struct DeviceManager {
    mapping: DeviceMaps,
    mapped: DeviceList,
}

impl DeviceManager {
    /// The mapping of all devices.
    pub closed spec fn mapping(&self) -> DeviceMaps {
        self.mapping
    }

    /// The identities of the devices that are being read.
    pub closed spec fn mapped(&self) -> Set<u16> {
        self.mapped@
    }

    /// A manager that reads no device yet.
    pub fn new(mapping: DeviceMaps) -> (manager: DeviceManager)
        ensures
            manager.mapping() == mapping,
            manager.mapped() == Set::<u16>::empty(),
    {
        DeviceManager { mapping, mapped: DeviceList::new() }
    }

    /// Tests whether the device with this identity is being read.
    pub fn is_mapped(&self, identity: u16) -> (held: bool)
        ensures
            held == self.mapped().contains(identity),
    {
        self.mapped.has_address(identity)
    }

    /// One pass over the bus. The devices whose readers have finished are no longer held;
    /// then each attached device that is not held, has a mapping and has an endpoint for its
    /// reports is taken, in the order of the bus, and is held from then on. The devices taken
    /// are returned, each with a copy of its mapping, for a reader to be started on each.
    pub fn discover(&mut self, finished: &Vec<u16>, attached: &Vec<UsbDevice>) -> (found: Vec<
        DiscoveredDevice,
    >)
        ensures
            final(self).mapping() == old(self).mapping(),
            found_at(
                found@,
                attached@,
                old(self).mapping().devices@,
                taken(
                    attached@,
                    old(self).mapped().difference(finished@.to_set()),
                    old(self).mapping().devices@,
                    attached@.len() as int,
                ),
            ),
            final(self).mapped() == held_after(
                attached@,
                old(self).mapped().difference(finished@.to_set()),
                old(self).mapping().devices@,
                attached@.len() as int,
            ),
    {
        let ghost before = self.mapped@;
        let mut f: usize = 0;
        assert(finished@.take(0).to_set() =~= Set::<u16>::empty());
        assert(before.difference(Set::<u16>::empty()) =~= before);
        while f < finished.len()
            invariant
                f <= finished.len(),
                self.mapping == old(self).mapping,
                self.mapped@ == before.difference(finished@.take(f as int).to_set()),
            decreases finished.len() - f,
        {
            proof {
                assert(finished@.take(f + 1) =~= finished@.take(f as int).push(finished@[f as int]));
                finished@.take(f as int).lemma_push_to_set_commute(finished@[f as int]);
            }
            self.mapped.remove_device(finished[f]);
            assert(self.mapped@ =~= before.difference(finished@.take(f + 1).to_set()));
            f += 1;
        }
        assert(finished@.take(finished@.len() as int) =~= finished@);
        let ghost held = self.mapped@;
        let ghost table = self.mapping.devices@;
        let found = discover_devices(attached, &self.mapped, &self.mapping);
        let ghost positions = taken(attached@, held, table, attached@.len() as int);
        let mut k: usize = 0;
        proof {
            lemma_held_is_taken(attached@, held, table, attached@.len() as int);
        }
        assert(positions.take(0).map_values(|at: int| attached@[at].identity()).to_set()
            =~= Set::<u16>::empty());
        assert(held.union(Set::<u16>::empty()) =~= held);
        while k < found.len()
            invariant
                k <= found.len(),
                self.mapping == old(self).mapping,
                found_at(found@, attached@, table, positions),
                self.mapped@ == held.union(
                    positions.take(k as int).map_values(|at: int| attached@[at].identity()).to_set(),
                ),
            decreases found.len() - k,
        {
            let ghost ids = positions.map_values(|at: int| attached@[at].identity());
            proof {
                assert(positions.take(k + 1).map_values(|at: int| attached@[at].identity())
                    =~= positions.take(k as int).map_values(
                    |at: int| attached@[at].identity(),
                ).push(ids[k as int]));
                positions.take(k as int).map_values(
                    |at: int| attached@[at].identity(),
                ).lemma_push_to_set_commute(ids[k as int]);
                assert(found@[k as int].is_device(attached@[positions[k as int]], table));
            }
            self.mapped.add_device(found[k].identity);
            assert(self.mapped@ =~= held.union(
                positions.take(k + 1).map_values(|at: int| attached@[at].identity()).to_set(),
            ));
            k += 1;
        }
        assert(positions.take(positions.len() as int) =~= positions);
        found
    }
}

/// The identities held after a pass are those held before it and those of the devices taken.
pub proof fn lemma_held_is_taken(
    attached: Seq<UsbDevice>,
    held: Set<u16>,
    table: Map<u32, DeviceMap>,
    count: int,
)
    ensures
        held_after(attached, held, table, count) == held.union(
            taken(attached, held, table, count).map_values(
                |at: int| attached[at].identity(),
            ).to_set(),
        ),
    decreases count,
{
    let identities = |at: int| attached[at].identity();
    if count <= 0 {
        assert(taken(attached, held, table, count).map_values(identities).to_set()
            =~= Set::<u16>::empty());
        assert(held.union(Set::<u16>::empty()) =~= held);
    } else {
        lemma_held_is_taken(attached, held, table, count - 1);
        let earlier = taken(attached, held, table, count - 1);
        if eligible_now(attached, held, table, count) {
            assert(earlier.push(count - 1).map_values(identities) =~= earlier.map_values(
                identities,
            ).push(attached[count - 1].identity()));
            earlier.map_values(identities).lemma_push_to_set_commute(
                attached[count - 1].identity(),
            );
            assert(held.union(earlier.map_values(identities).to_set()).insert(
                attached[count - 1].identity(),
            ) =~= held.union(
                earlier.map_values(identities).to_set().insert(attached[count - 1].identity()),
            ));
        }
    }
}

/// The attached device at position `count - 1` is eligible when its turn comes.
pub open spec fn eligible_now(
    attached: Seq<UsbDevice>,
    held: Set<u16>,
    table: Map<u32, DeviceMap>,
    count: int,
) -> bool {
    eligible(attached[count - 1], held_after(attached, held, table, count - 1), table)
}

/// The lower-case form of a text.
pub uninterp spec fn lowercase(text: Seq<char>) -> Seq<char>;

/// `str::to_lowercase` of std: the result is the lower-case form of the text, which depends
/// on the text alone.
#[verifier::external_body]
fn to_lowercase(text: &str) -> (lowered: String)
    ensures
        lowered@ == lowercase(text@),
{
    text.to_lowercase()
}

/// `str::starts_with` of std, with a string as the pattern: whether the text begins with
/// the characters of `prefix`.
#[verifier::external_body]
fn starts_with(text: &str, prefix: &str) -> (starts: bool)
    ensures
        starts == prefix@.is_prefix_of(text@),
{
    text.starts_with(prefix)
}

/// The position of the first of `names` that begins with `selector`, if there is one.
pub open spec fn first_match(names: Seq<Seq<char>>, selector: Seq<char>) -> Option<int>
    decreases names.len(),
{
    if names.len() == 0 {
        None
    } else {
        match first_match(names.drop_last(), selector) {
            Some(position) => Some(position),
            None => if selector.is_prefix_of(names.last()) {
                Some(names.len() - 1)
            } else {
                None
            },
        }
    }
}

/// The views of a sequence of texts.
pub open spec fn text_views(texts: Seq<String>) -> Seq<Seq<char>> {
    texts.map_values(|text: String| text@)
}

/// Finds the first of `names` that begins with `selector`.
pub fn find_match(names: &Vec<String>, selector: &str) -> (found: Option<usize>)
    ensures
        found matches Some(position) ==> first_match(text_views(names@), selector@) == Some(
            position as int,
        ),
        found is None ==> first_match(text_views(names@), selector@) is None,
{
    let ghost views = text_views(names@);
    let mut k: usize = 0;
    assert(views.take(0) =~= Seq::empty());
    while k < names.len()
        invariant
            k <= names.len(),
            views == text_views(names@),
            first_match(views.take(k as int), selector@) is None,
        decreases names.len() - k,
    {
        assert(views.take(k + 1).drop_last() =~= views.take(k as int));
        if starts_with(names[k].as_str(), selector) {
            proof {
                lemma_match_stays(views, selector@, k + 1);
            }
            return Some(k);
        }
        k += 1;
    }
    assert(views.take(views.len() as int) =~= views);
    None
}

/// A match among the first `count` names is the match of the whole list.
pub proof fn lemma_match_stays(names: Seq<Seq<char>>, selector: Seq<char>, count: int)
    requires
        0 <= count <= names.len(),
        first_match(names.take(count), selector) is Some,
    ensures
        first_match(names, selector) == first_match(names.take(count), selector),
    decreases names.len() - count,
{
    if count < names.len() {
        assert(names.take(count + 1).drop_last() =~= names.take(count));
        lemma_match_stays(names, selector, count + 1);
    } else {
        assert(names.take(count) =~= names);
    }
}

impl Profiles {
    /// The names of the profiles in lower case, in declaration order.
    pub open spec fn lowered_names(&self) -> Seq<Seq<char>> {
        self.profiles@.map_values(|profile: Profile| lowercase(profile.name@))
    }

    /// The position of the profile that a selector picks: the first whose name in lower case
    /// begins with the selector in lower case; the first profile where there is no selector
    /// or no such name.
    pub open spec fn selected(&self, selector: Option<Seq<char>>) -> int {
        match selector {
            None => 0,
            Some(text) => match first_match(self.lowered_names(), lowercase(text)) {
                Some(position) => position,
                None => 0,
            },
        }
    }

    /// The selector picks an output table: there is a first profile with a first mode, and
    /// the profile picked has a first mode.
    pub open spec fn selects(&self, selector: Option<Seq<char>>) -> bool {
        &&& self.profiles@.len() > 0
        &&& self.profiles@[0].modes@.len() > 0
        &&& self.profiles@[self.selected(selector)].modes@.len() > 0
    }

    /// Finds the position of the profile that the selector picks.
    pub fn select(&self, selector: Option<&str>) -> (position: usize)
        ensures
            position == self.selected(
                match selector {
                    Some(text) => Some(text@),
                    None => None,
                },
            ),
            self.profiles@.len() > 0 ==> position < self.profiles@.len(),
    {
        match selector {
            None => 0,
            Some(text) => {
                let lowered = to_lowercase(text);
                let mut names: Vec<String> = Vec::new();
                let mut p: usize = 0;
                while p < self.profiles.len()
                    invariant
                        p <= self.profiles.len(),
                        text_views(names@) == self.lowered_names().take(p as int),
                    decreases self.profiles.len() - p,
                {
                    let ghost before = names@;
                    names.push(to_lowercase(self.profiles[p].name.as_str()));
                    assert(text_views(names@) =~= text_views(before).push(
                        lowercase(self.profiles@[p as int].name@),
                    ));
                    assert(self.lowered_names().take(p + 1) =~= self.lowered_names().take(
                        p as int,
                    ).push(lowercase(self.profiles@[p as int].name@)));
                    p += 1;
                }
                assert(self.lowered_names().take(self.profiles@.len() as int)
                    =~= self.lowered_names());
                proof {
                    lemma_match_in_range(self.lowered_names(), lowered@);
                }
                match find_match(&names, lowered.as_str()) {
                    Some(position) => position,
                    None => 0,
                }
            },
        }
    }

    /// The output table that events are dispatched to: the first mode of the profile that
    /// the selector picks. `None` where the selector picks no table.
    pub fn output(&self, selector: Option<&str>) -> (table: Option<&Vec<Action>>)
        ensures
            ({
                let picked = match selector {
                    Some(text) => Some(text@),
                    None => None,
                };
                match table {
                    Some(output) => self.selects(picked) && *output
                        == self.profiles@[self.selected(picked)].modes@[0].output,
                    None => !self.selects(picked),
                }
            }),
    {
        if self.profiles.len() == 0 || self.profiles[0].modes.len() == 0 {
            return None;
        }
        let position = self.select(selector);
        if self.profiles[position].modes.len() == 0 {
            return None;
        }
        Some(&self.profiles[position].modes[0].output)
    }
}

/// A match lies inside the list.
pub proof fn lemma_match_in_range(names: Seq<Seq<char>>, selector: Seq<char>)
    ensures
        first_match(names, selector) matches Some(position) ==> 0 <= position < names.len(),
    decreases names.len(),
{
    if names.len() > 0 {
        lemma_match_in_range(names.drop_last(), selector);
    }
}

impl Input {
    /// The unique id of the input that changed.
    pub open spec fn uid(self) -> u16 {
        match self {
            Input::ButtonDown(uid) => uid,
            Input::ButtonUp(uid) => uid,
            Input::Axis(uid, _, _) => uid,
        }
    }
}

/// The key commands of an event: those of the action in the slot of its input, with level
/// one after zero for a press, zero after one for a release, and the new level after the old
/// one for a change of an axis.
pub open spec fn dispatched(output: Seq<ActionView>, event: Input) -> Seq<KeyCommandView> {
    match event {
        Input::ButtonDown(uid) => output[uid as int].commands(PRESSED, RELEASED),
        Input::ButtonUp(uid) => output[uid as int].commands(RELEASED, PRESSED),
        Input::Axis(uid, value, old_value) => output[uid as int].commands(value, old_value),
    }
}

/// Turns an event into the key commands of the action that the output table holds for its
/// input.
pub fn dispatch(output: &Vec<Action>, event: Input) -> (commands: Vec<KeyCommand>)
    requires
        event.uid() < output@.len(),
    ensures
        command_views(commands@) == dispatched(action_views(output@), event),
{
    match event {
        Input::ButtonDown(uid) => output[uid as usize].execute(PRESSED, RELEASED),
        Input::ButtonUp(uid) => output[uid as usize].execute(RELEASED, PRESSED),
        Input::Axis(uid, value, old_value) => output[uid as usize].execute(value, old_value),
    }
}

} // verus!
