use crate::action::{Action, ActionView, action_views};
use crate::device_mapping::{DeviceInputUid, InputUidView, input_uid_views};
use crate::error::{ConfigError, ConfigErrorKind};
use vstd::prelude::*;
use vstd::string::StringExecFns;

verus! {

/// Definition of a profile as it is read from a configuration file.
#[derive(Debug, Clone)]
pub struct ProfileDef {
    pub name: String,
    pub pattern: String,
    pub modes: Vec<ModeDef>,
}

/// Definition of a mode of a profile.
#[derive(Debug, Clone)]
pub struct ModeDef {
    pub name: String,
    pub devices: Vec<DeviceDef>,
}

/// What the inputs of one device do in a mode.
#[derive(Debug, Clone)]
pub struct DeviceDef {
    /// Name of the device.
    pub device: String,
    /// Buttons that each hold a key.
    pub single: Vec<SingleDef>,
    /// Runs of numbered buttons that each hold a key.
    pub singles: Vec<SinglesDef>,
    /// Axes that each hold one of two keys.
    pub axes: Vec<AxisDef>,
}

/// A button and the key that it holds.
#[derive(Debug, Clone)]
pub struct SingleDef {
    pub button: String,
    pub cmd: String,
}

/// A run of buttons named by a prefix and consecutive numbers from `index` on, and the key
/// that each holds.
#[derive(Debug, Clone)]
pub struct SinglesDef {
    pub button: String,
    pub index: u8,
    pub cmds: Vec<String>,
}

/// An axis and its keys: the last two names of `simple` are the key of the negative side and
/// the key of the positive side.
#[derive(Debug, Clone)]
pub struct AxisDef {
    pub axis: String,
    pub simple: Vec<String>,
}

/// All profiles, in declaration order.
#[derive(Debug)]
pub struct Profiles {
    pub profiles: Vec<Profile>,
}

/// A profile: a name, a selector pattern and its modes.
#[derive(Debug)]
pub struct Profile {
    pub name: String,
    pub pattern: String,
    pub modes: Vec<Mode>,
}

/// A mode: for each unique id of an input, what the input does.
#[derive(Debug)]
pub struct Mode {
    pub name: String,
    pub output: Vec<Action>,
}

/// The character of a decimal digit.
pub open spec fn digit(value: nat) -> char {
    if value == 0 {
        '0'
    } else if value == 1 {
        '1'
    } else if value == 2 {
        '2'
    } else if value == 3 {
        '3'
    } else if value == 4 {
        '4'
    } else if value == 5 {
        '5'
    } else if value == 6 {
        '6'
    } else if value == 7 {
        '7'
    } else if value == 8 {
        '8'
    } else {
        '9'
    }
}

/// The decimal digits of a number, without leading zeros.
pub open spec fn decimal(value: nat) -> Seq<char>
    decreases value,
{
    if value < 10 {
        seq![digit(value)]
    } else {
        decimal(value / 10).push(digit(value % 10))
    }
}

fn digit_str(value: u8) -> (text: &'static str)
    requires
        value < 10,
    ensures
        text@ == seq![digit(value as nat)],
{
    proof {
        reveal_strlit("0");
        reveal_strlit("1");
        reveal_strlit("2");
        reveal_strlit("3");
        reveal_strlit("4");
        reveal_strlit("5");
        reveal_strlit("6");
        reveal_strlit("7");
        reveal_strlit("8");
        reveal_strlit("9");
    }
    let text = if value == 0 {
        "0"
    } else if value == 1 {
        "1"
    } else if value == 2 {
        "2"
    } else if value == 3 {
        "3"
    } else if value == 4 {
        "4"
    } else if value == 5 {
        "5"
    } else if value == 6 {
        "6"
    } else if value == 7 {
        "7"
    } else if value == 8 {
        "8"
    } else {
        "9"
    };
    assert(text@ =~= seq![digit(value as nat)]);
    text
}

/// The name of a numbered button: the prefix, then the number in decimal digits.
pub fn numbered_name(prefix: &String, number: u8) -> (name: String)
    ensures
        name@ == prefix@ + decimal(number as nat),
{
    let mut name = prefix.clone();
    proof {
        reveal_with_fuel(decimal, 3);
    }
    if number >= 100 {
        name.append(digit_str(number / 100));
    }
    if number >= 10 {
        name.append(digit_str((number / 10) % 10));
    }
    name.append(digit_str(number % 10));
    assert(name@ =~= prefix@ + decimal(number as nat));
    name
}

/// The unique id of the input `name` of `device`: that of the last of `inputs` that bears
/// both names, if there is one.
pub open spec fn lookup(inputs: Seq<InputUidView>, device: Seq<char>, name: Seq<char>) -> Option<
    u16,
>
    decreases inputs.len(),
{
    if inputs.len() == 0 {
        None
    } else if inputs.last().device() == device && inputs.last().name() == name {
        Some(inputs.last().uid())
    } else {
        lookup(inputs.drop_last(), device, name)
    }
}

/// Finds the unique id of the input `name` of `device`.
pub fn find_input(inputs: &Vec<DeviceInputUid>, device: &String, name: &String) -> (found: Option<
    u16,
>)
    ensures
        found == lookup(input_uid_views(inputs@), device@, name@),
{
    let ghost views = input_uid_views(inputs@);
    let mut k: usize = inputs.len();
    assert(views.take(k as int) =~= views);
    while k > 0
        invariant
            k <= inputs.len(),
            views == input_uid_views(inputs@),
            lookup(views, device@, name@) == lookup(views.take(k as int), device@, name@),
        decreases k,
    {
        k -= 1;
        assert(views.take(k + 1).drop_last() =~= views.take(k as int));
        assert(views.take(k + 1).last() == inputs@[k as int]@);
        match &inputs[k] {
            DeviceInputUid::Digital(input_device, input_name, uid) => {
                if *input_device == *device && *input_name == *name {
                    return Some(*uid);
                }
            },
            DeviceInputUid::Analog(input_device, input_name, uid) => {
                if *input_device == *device && *input_name == *name {
                    return Some(*uid);
                }
            },
        }
    }
    None
}

/// One entry of a mode definition: an input of a device and what it is to do. The name is
/// missing where the number of a numbered button passes 255, the action where an axis names
/// fewer than two keys.
pub struct Binding {
    pub device: Seq<char>,
    pub name: Option<Seq<char>>,
    pub action: Option<ActionView>,
}

/// The slot of the output table that the binding fills, and with what; or why it cannot.
pub open spec fn resolve(binding: Binding, inputs: Seq<InputUidView>, size: nat) -> Result<
    (int, ActionView),
    ConfigErrorKind,
> {
    match binding.name {
        None => Err(ConfigErrorKind::ButtonNumberTooLarge),
        Some(name) => match lookup(inputs, binding.device, name) {
            None => Err(ConfigErrorKind::UnknownInput),
            Some(uid) => match binding.action {
                None => Err(ConfigErrorKind::MissingAxisKeys),
                Some(action) => if uid < size {
                    Ok((uid as int, action))
                } else {
                    Err(ConfigErrorKind::InputOutsideTable)
                },
            },
        },
    }
}

/// The output table after the bindings have filled their slots one after the other, a later
/// one overwriting an earlier one; or the fault of the first binding that cannot be resolved.
pub open spec fn bind(table: Seq<ActionView>, bindings: Seq<Binding>, inputs: Seq<InputUidView>)
    -> Result<Seq<ActionView>, ConfigErrorKind>
    decreases bindings.len(),
{
    if bindings.len() == 0 {
        Ok(table)
    } else {
        match bind(table, bindings.drop_last(), inputs) {
            Err(kind) => Err(kind),
            Ok(filled) => match resolve(bindings.last(), inputs, filled.len()) {
                Err(kind) => Err(kind),
                Ok((slot, action)) => Ok(filled.update(slot, action)),
            },
        }
    }
}

/// Binding two lists one after the other is binding the first and then, to the table that
/// it gives, the second.
pub proof fn lemma_bind_append(
    table: Seq<ActionView>,
    first: Seq<Binding>,
    second: Seq<Binding>,
    inputs: Seq<InputUidView>,
)
    ensures
        bind(table, first + second, inputs) == match bind(table, first, inputs) {
            Err(kind) => Err(kind),
            Ok(filled) => bind(filled, second, inputs),
        },
    decreases second.len(),
{
    if second.len() == 0 {
        assert(first + second =~= first);
    } else {
        assert((first + second).drop_last() =~= first + second.drop_last());
        assert((first + second).last() == second.last());
        lemma_bind_append(table, first, second.drop_last(), inputs);
    }
}

/// Binding one more entry.
pub proof fn lemma_bind_push(
    table: Seq<ActionView>,
    bindings: Seq<Binding>,
    binding: Binding,
    inputs: Seq<InputUidView>,
)
    ensures
        bind(table, bindings.push(binding), inputs) == match bind(table, bindings, inputs) {
            Err(kind) => Err(kind),
            Ok(filled) => match resolve(binding, inputs, filled.len()) {
                Err(kind) => Err(kind),
                Ok((slot, action)) => Ok(filled.update(slot, action)),
            },
        },
{
    assert(bindings.push(binding).drop_last() =~= bindings);
}

/// Fills the slot of one binding. The table is left as it is where the binding cannot be
/// resolved.
fn bind_one(
    output: &mut Vec<Action>,
    inputs: &Vec<DeviceInputUid>,
    device: &String,
    name: Option<String>,
    action: Option<Action>,
    Ghost(binding): Ghost<Binding>,
) -> (done: Result<(), ConfigErrorKind>)
    requires
        binding.device == device@,
        binding.name == match name {
            Some(name) => Some(name@),
            None => None::<Seq<char>>,
        },
        binding.action == match action {
            Some(action) => Some(action@),
            None => None::<ActionView>,
        },
    ensures
        match resolve(binding, input_uid_views(inputs@), old(output)@.len()) {
            Ok((slot, filled)) => done is Ok && action_views(final(output)@) == action_views(
                old(output)@,
            ).update(slot, filled),
            Err(kind) => done == Err::<(), ConfigErrorKind>(kind) && final(output)@ == old(output)@,
        },
{
    let name = match name {
        Some(name) => name,
        None => {
            return Err(ConfigErrorKind::ButtonNumberTooLarge);
        },
    };
    let uid = match find_input(inputs, device, &name) {
        Some(uid) => uid,
        None => {
            return Err(ConfigErrorKind::UnknownInput);
        },
    };
    let action = match action {
        Some(action) => action,
        None => {
            return Err(ConfigErrorKind::MissingAxisKeys);
        },
    };
    if uid as usize >= output.len() {
        return Err(ConfigErrorKind::InputOutsideTable);
    }
    let ghost before = output@;
    let ghost filled = action@;
    output[uid as usize] = action;
    assert(action_views(output@) =~= action_views(before).update(uid as int, filled));
    Ok(())
}

/// A fault among the first `count` bindings is the fault of the whole list.
pub proof fn lemma_bind_fault_stays(
    table: Seq<ActionView>,
    bindings: Seq<Binding>,
    count: int,
    inputs: Seq<InputUidView>,
)
    requires
        0 <= count <= bindings.len(),
        bind(table, bindings.take(count), inputs) is Err,
    ensures
        bind(table, bindings, inputs) == bind(table, bindings.take(count), inputs),
{
    assert(bindings =~= bindings.take(count) + bindings.skip(count));
    lemma_bind_append(table, bindings.take(count), bindings.skip(count), inputs);
}

/// Binding keeps the size of the table.
pub proof fn lemma_bind_keeps_size(
    table: Seq<ActionView>,
    bindings: Seq<Binding>,
    inputs: Seq<InputUidView>,
)
    ensures
        bind(table, bindings, inputs) is Ok ==> bind(table, bindings, inputs)->Ok_0.len()
            == table.len(),
    decreases bindings.len(),
{
    if bindings.len() > 0 {
        lemma_bind_keeps_size(table, bindings.drop_last(), inputs);
    }
}

/// `done` and `after` are the outcome of binding `bindings` to the table `before`: the
/// filled table, or the fault of the first binding that cannot be resolved.
pub open spec fn bound(
    before: Seq<ActionView>,
    bindings: Seq<Binding>,
    inputs: Seq<InputUidView>,
    done: Result<(), ConfigErrorKind>,
    after: Seq<ActionView>,
) -> bool {
    match bind(before, bindings, inputs) {
        Ok(filled) => done is Ok && after == filled,
        Err(kind) => done == Err::<(), ConfigErrorKind>(kind),
    }
}

/// The binding of a button to its key.
pub open spec fn single_binding(device: Seq<char>, single: SingleDef) -> Binding {
    Binding {
        device,
        name: Some(single.button@),
        action: Some(ActionView::Key(single.cmd@)),
    }
}

/// The bindings of a run of numbered buttons: the button at position `i` bears the prefix
/// and the number `index + i`.
pub open spec fn numbered_bindings(device: Seq<char>, group: SinglesDef) -> Seq<Binding> {
    Seq::new(
        group.cmds@.len(),
        |i: int|
            Binding {
                device,
                name: if group.index + i <= 255 {
                    Some(group.button@ + decimal((group.index + i) as nat))
                } else {
                    None
                },
                action: Some(ActionView::Key(group.cmds@[i]@)),
            },
    )
}

/// The binding of an axis to its two keys, the last two names of its list.
pub open spec fn axis_binding(device: Seq<char>, axis: AxisDef) -> Binding {
    Binding {
        device,
        name: Some(axis.axis@),
        action: if axis.simple@.len() >= 2 {
            Some(
                ActionView::Axis(
                    axis.simple@[axis.simple@.len() - 2]@,
                    axis.simple@[axis.simple@.len() - 1]@,
                ),
            )
        } else {
            None
        },
    }
}

fn bind_single(
    output: &mut Vec<Action>,
    inputs: &Vec<DeviceInputUid>,
    device: &String,
    singles: &Vec<SingleDef>,
) -> (done: Result<(), ConfigErrorKind>)
    ensures
        bound(
            action_views(old(output)@),
            singles@.map_values(|single: SingleDef| single_binding(device@, single)),
            input_uid_views(inputs@),
            done,
            action_views(final(output)@),
        ),
{
    let ghost start = action_views(output@);
    let ghost views = input_uid_views(inputs@);
    let ghost all = singles@.map_values(|single: SingleDef| single_binding(device@, single));
    let mut k: usize = 0;
    while k < singles.len()
        invariant
            k <= singles.len(),
            views == input_uid_views(inputs@),
            start == action_views(old(output)@),
            all == singles@.map_values(|single: SingleDef| single_binding(device@, single)),
            bind(start, all.take(k as int), views) == Ok::<Seq<ActionView>, ConfigErrorKind>(
                action_views(output@),
            ),
        decreases singles.len() - k,
    {
        let single = &singles[k];
        proof {
            assert(all.take(k + 1) =~= all.take(k as int).push(all[k as int]));
            lemma_bind_push(start, all.take(k as int), all[k as int], views);
            assert(action_views(output@).len() == output@.len());
        }
        let done = bind_one(
            output,
            inputs,
            device,
            Some(single.button.clone()),
            Some(Action::Key(single.cmd.clone())),
            Ghost(all[k as int]),
        );
        if let Err(kind) = done {
            proof {
                assert(bind(start, all.take(k + 1), views) == Err::<
                    Seq<ActionView>,
                    ConfigErrorKind,
                >(kind));
                lemma_bind_fault_stays(start, all, k + 1, views);
            }
            return Err(kind);
        }
        k += 1;
    }
    assert(all.take(all.len() as int) =~= all);
    Ok(())
}

fn bind_axes(
    output: &mut Vec<Action>,
    inputs: &Vec<DeviceInputUid>,
    device: &String,
    axes: &Vec<AxisDef>,
) -> (done: Result<(), ConfigErrorKind>)
    ensures
        bound(
            action_views(old(output)@),
            axes@.map_values(|axis: AxisDef| axis_binding(device@, axis)),
            input_uid_views(inputs@),
            done,
            action_views(final(output)@),
        ),
{
    let ghost start = action_views(output@);
    let ghost views = input_uid_views(inputs@);
    let ghost all = axes@.map_values(|axis: AxisDef| axis_binding(device@, axis));
    let mut k: usize = 0;
    while k < axes.len()
        invariant
            k <= axes.len(),
            views == input_uid_views(inputs@),
            start == action_views(old(output)@),
            all == axes@.map_values(|axis: AxisDef| axis_binding(device@, axis)),
            bind(start, all.take(k as int), views) == Ok::<Seq<ActionView>, ConfigErrorKind>(
                action_views(output@),
            ),
        decreases axes.len() - k,
    {
        let axis = &axes[k];
        proof {
            assert(all.take(k + 1) =~= all.take(k as int).push(all[k as int]));
            lemma_bind_push(start, all.take(k as int), all[k as int], views);
            assert(action_views(output@).len() == output@.len());
        }
        let count = axis.simple.len();
        let action = if count >= 2 {
            Some(Action::Axis(axis.simple[count - 2].clone(), axis.simple[count - 1].clone()))
        } else {
            None
        };
        let done = bind_one(
            output,
            inputs,
            device,
            Some(axis.axis.clone()),
            action,
            Ghost(all[k as int]),
        );
        if let Err(kind) = done {
            proof {
                assert(bind(start, all.take(k + 1), views) == Err::<
                    Seq<ActionView>,
                    ConfigErrorKind,
                >(kind));
                lemma_bind_fault_stays(start, all, k + 1, views);
            }
            return Err(kind);
        }
        k += 1;
    }
    assert(all.take(all.len() as int) =~= all);
    Ok(())
}

fn bind_numbered(
    output: &mut Vec<Action>,
    inputs: &Vec<DeviceInputUid>,
    device: &String,
    group: &SinglesDef,
) -> (done: Result<(), ConfigErrorKind>)
    ensures
        bound(
            action_views(old(output)@),
            numbered_bindings(device@, *group),
            input_uid_views(inputs@),
            done,
            action_views(final(output)@),
        ),
{
    let ghost start = action_views(output@);
    let ghost views = input_uid_views(inputs@);
    let ghost all = numbered_bindings(device@, *group);
    let mut k: usize = 0;
    while k < group.cmds.len()
        invariant
            k <= group.cmds.len(),
            views == input_uid_views(inputs@),
            start == action_views(old(output)@),
            all == numbered_bindings(device@, *group),
            bind(start, all.take(k as int), views) == Ok::<Seq<ActionView>, ConfigErrorKind>(
                action_views(output@),
            ),
        decreases group.cmds.len() - k,
    {
        proof {
            assert(all.take(k + 1) =~= all.take(k as int).push(all[k as int]));
            lemma_bind_push(start, all.take(k as int), all[k as int], views);
            assert(action_views(output@).len() == output@.len());
        }
        let name = if k <= 255 && group.index as usize + k <= 255 {
            Some(numbered_name(&group.button, (group.index as usize + k) as u8))
        } else {
            None
        };
        let done = bind_one(
            output,
            inputs,
            device,
            name,
            Some(Action::Key(group.cmds[k].clone())),
            Ghost(all[k as int]),
        );
        if let Err(kind) = done {
            proof {
                assert(bind(start, all.take(k + 1), views) == Err::<
                    Seq<ActionView>,
                    ConfigErrorKind,
                >(kind));
                lemma_bind_fault_stays(start, all, k + 1, views);
            }
            return Err(kind);
        }
        k += 1;
    }
    assert(all.take(all.len() as int) =~= all);
    Ok(())
}

/// The bindings of one device of a mode: its buttons, then its numbered buttons, then its
/// axes.
pub open spec fn device_bindings(definition: DeviceDef) -> Seq<Binding> {
    definition.single@.map_values(|single: SingleDef| single_binding(definition.device@, single))
        + definition.singles@.flat_map(
        |group: SinglesDef| numbered_bindings(definition.device@, group),
    ) + definition.axes@.map_values(|axis: AxisDef| axis_binding(definition.device@, axis))
}

/// The bindings of a mode, device by device.
pub open spec fn mode_bindings(definition: ModeDef) -> Seq<Binding> {
    definition.devices@.flat_map(|device: DeviceDef| device_bindings(device))
}

/// A table of the given size in which no input does anything.
pub open spec fn idle_table(size: nat) -> Seq<ActionView> {
    Seq::new(size, |slot: int| ActionView::NoOp)
}

fn bind_groups(
    output: &mut Vec<Action>,
    inputs: &Vec<DeviceInputUid>,
    device: &String,
    groups: &Vec<SinglesDef>,
) -> (done: Result<(), ConfigErrorKind>)
    ensures
        bound(
            action_views(old(output)@),
            groups@.flat_map(|group: SinglesDef| numbered_bindings(device@, group)),
            input_uid_views(inputs@),
            done,
            action_views(final(output)@),
        ),
{
    let ghost start = action_views(output@);
    let ghost views = input_uid_views(inputs@);
    let ghost numbered = |group: SinglesDef| numbered_bindings(device@, group);
    assert(groups@.take(0).flat_map(numbered) =~= Seq::empty());
    let mut k: usize = 0;
    while k < groups.len()
        invariant
            k <= groups.len(),
            views == input_uid_views(inputs@),
            start == action_views(old(output)@),
            numbered == |group: SinglesDef| numbered_bindings(device@, group),
            bind(start, groups@.take(k as int).flat_map(numbered), views) == Ok::<
                Seq<ActionView>,
                ConfigErrorKind,
            >(action_views(output@)),
        decreases groups.len() - k,
    {
        proof {
            groups@.lemma_flat_map_take_append(numbered, k as int);
            lemma_bind_append(
                start,
                groups@.take(k as int).flat_map(numbered),
                numbered(groups@[k as int]),
                views,
            );
        }
        let done = bind_numbered(output, inputs, device, &groups[k]);
        if let Err(kind) = done {
            proof {
                let all = groups@.flat_map(numbered);
                let upto = groups@.take(k + 1).flat_map(numbered);
                assert(groups@ =~= groups@.take(k + 1) + groups@.skip(k + 1));
                vstd::seq_lib::lemma_flatten_concat(
                    groups@.take(k + 1).map_values(numbered),
                    groups@.skip(k + 1).map_values(numbered),
                );
                assert(groups@.map_values(numbered) =~= groups@.take(k + 1).map_values(numbered)
                    + groups@.skip(k + 1).map_values(numbered));
                lemma_bind_append(start, upto, groups@.skip(k + 1).flat_map(numbered), views);
            }
            return Err(kind);
        }
        k += 1;
    }
    assert(groups@.take(groups@.len() as int) =~= groups@);
    Ok(())
}

fn bind_device(output: &mut Vec<Action>, inputs: &Vec<DeviceInputUid>, definition: &DeviceDef) -> (done:
    Result<(), ConfigErrorKind>)
    ensures
        bound(
            action_views(old(output)@),
            device_bindings(*definition),
            input_uid_views(inputs@),
            done,
            action_views(final(output)@),
        ),
{
    let ghost start = action_views(output@);
    let ghost views = input_uid_views(inputs@);
    let ghost buttons = definition.single@.map_values(
        |single: SingleDef| single_binding(definition.device@, single),
    );
    let ghost numbered = definition.singles@.flat_map(
        |group: SinglesDef| numbered_bindings(definition.device@, group),
    );
    let ghost axes = definition.axes@.map_values(
        |axis: AxisDef| axis_binding(definition.device@, axis),
    );
    proof {
        lemma_bind_append(start, buttons, numbered, views);
        lemma_bind_append(start, buttons + numbered, axes, views);
    }
    bind_single(output, inputs, &definition.device, &definition.single)?;
    bind_groups(output, inputs, &definition.device, &definition.singles)?;
    bind_axes(output, inputs, &definition.device, &definition.axes)
}

/// Builds the output table of a mode: as many slots as there are inputs, each doing nothing
/// but those that the mode binds.
pub fn build_output(inputs: &Vec<DeviceInputUid>, definition: &ModeDef) -> (built: Result<
    Vec<Action>,
    ConfigErrorKind,
>)
    ensures
        match bind(
            idle_table(inputs@.len()),
            mode_bindings(*definition),
            input_uid_views(inputs@),
        ) {
            Ok(filled) => built is Ok && action_views(built->Ok_0@) == filled,
            Err(kind) => built == Err::<Vec<Action>, ConfigErrorKind>(kind),
        },
{
    let mut output: Vec<Action> = Vec::new();
    let mut slot: usize = 0;
    while slot < inputs.len()
        invariant
            slot <= inputs.len(),
            action_views(output@) == idle_table(slot as nat),
        decreases inputs.len() - slot,
    {
        let ghost before = output@;
        output.push(Action::NoOp);
        assert(action_views(output@) =~= action_views(before).push(ActionView::NoOp));
        assert(action_views(output@) =~= idle_table((slot + 1) as nat));
        slot += 1;
    }
    let ghost start = action_views(output@);
    let ghost views = input_uid_views(inputs@);
    let ghost bindings = |device: DeviceDef| device_bindings(device);
    let ghost devices = definition.devices@;
    assert(devices.take(0).flat_map(bindings) =~= Seq::empty());
    let mut d: usize = 0;
    while d < definition.devices.len()
        invariant
            d <= definition.devices.len(),
            views == input_uid_views(inputs@),
            start == idle_table(inputs@.len()),
            devices == definition.devices@,
            bindings == |device: DeviceDef| device_bindings(device),
            bind(start, devices.take(d as int).flat_map(bindings), views) == Ok::<
                Seq<ActionView>,
                ConfigErrorKind,
            >(action_views(output@)),
        decreases definition.devices.len() - d,
    {
        proof {
            devices.lemma_flat_map_take_append(bindings, d as int);
            lemma_bind_append(
                start,
                devices.take(d as int).flat_map(bindings),
                bindings(devices[d as int]),
                views,
            );
        }
        let done = bind_device(&mut output, inputs, &definition.devices[d]);
        if let Err(kind) = done {
            proof {
                let upto = devices.take(d + 1).flat_map(bindings);
                assert(devices =~= devices.take(d + 1) + devices.skip(d + 1));
                vstd::seq_lib::lemma_flatten_concat(
                    devices.take(d + 1).map_values(bindings),
                    devices.skip(d + 1).map_values(bindings),
                );
                assert(devices.map_values(bindings) =~= devices.take(d + 1).map_values(bindings)
                    + devices.skip(d + 1).map_values(bindings));
                lemma_bind_append(start, upto, devices.skip(d + 1).flat_map(bindings), views);
            }
            return Err(kind);
        }
        d += 1;
    }
    assert(devices.take(devices.len() as int) =~= devices);
    Ok(output)
}

/// The output table of a mode over the listed inputs, or why it cannot be built.
pub open spec fn mode_output(definition: ModeDef, inputs: Seq<InputUidView>) -> Result<
    Seq<ActionView>,
    ConfigErrorKind,
> {
    bind(idle_table(inputs.len()), mode_bindings(definition), inputs)
}

/// The fault of the first faulty mode among the first `count` of a profile.
pub open spec fn profile_fault(definition: ProfileDef, inputs: Seq<InputUidView>, count: int)
    -> Option<ConfigErrorKind>
    decreases count,
{
    if count <= 0 {
        None
    } else {
        match profile_fault(definition, inputs, count - 1) {
            Some(kind) => Some(kind),
            None => match mode_output(definition.modes@[count - 1], inputs) {
                Err(kind) => Some(kind),
                Ok(_) => None,
            },
        }
    }
}

/// The fault of the first faulty profile among the first `count`, with its position.
pub open spec fn profiles_fault(
    definitions: Seq<ProfileDef>,
    inputs: Seq<InputUidView>,
    count: int,
) -> Option<ConfigError>
    decreases count,
{
    if count <= 0 {
        None
    } else {
        match profiles_fault(definitions, inputs, count - 1) {
            Some(fault) => Some(fault),
            None => match profile_fault(
                definitions[count - 1],
                inputs,
                definitions[count - 1].modes@.len() as int,
            ) {
                Some(kind) => Some(ConfigError { kind, position: (count - 1) as usize }),
                None => None,
            },
        }
    }
}

/// A fault among the first `count` modes is the fault of any longer list.
pub proof fn lemma_profile_fault_stays(
    definition: ProfileDef,
    inputs: Seq<InputUidView>,
    count: int,
    more: int,
)
    requires
        0 <= count <= more,
        profile_fault(definition, inputs, count) is Some,
    ensures
        profile_fault(definition, inputs, more) == profile_fault(definition, inputs, count),
    decreases more - count,
{
    if count < more {
        lemma_profile_fault_stays(definition, inputs, count, more - 1);
    }
}

/// A fault among the first `count` profiles is the fault of any longer list.
pub proof fn lemma_profiles_fault_stays(
    definitions: Seq<ProfileDef>,
    inputs: Seq<InputUidView>,
    count: int,
    more: int,
)
    requires
        0 <= count <= more,
        profiles_fault(definitions, inputs, count) is Some,
    ensures
        profiles_fault(definitions, inputs, more) == profiles_fault(definitions, inputs, count),
    decreases more - count,
{
    if count < more {
        lemma_profiles_fault_stays(definitions, inputs, count, more - 1);
    }
}

impl Mode {
    /// The mode is the one that the definition describes over the listed inputs.
    pub open spec fn describes(&self, definition: ModeDef, inputs: Seq<InputUidView>) -> bool {
        &&& self.name@ == definition.name@
        &&& mode_output(definition, inputs) == Ok::<Seq<ActionView>, ConfigErrorKind>(
            action_views(self.output@),
        )
    }
}

impl Profile {
    /// The profile is the one that the definition describes over the listed inputs.
    pub open spec fn describes(&self, definition: ProfileDef, inputs: Seq<InputUidView>) -> bool {
        &&& self.name@ == definition.name@
        &&& self.pattern@ == definition.pattern@
        &&& self.modes@.len() == definition.modes@.len()
        &&& forall|m: int|
            0 <= m < self.modes@.len() ==> (#[trigger] self.modes@[m]).describes(
                definition.modes@[m],
                inputs,
            )
    }

    /// Builds the profile that a definition describes.
    pub fn build(inputs: &Vec<DeviceInputUid>, definition: &ProfileDef) -> (built: Result<
        Profile,
        ConfigErrorKind,
    >)
        ensures
            match built {
                Ok(profile) => profile_fault(
                    *definition,
                    input_uid_views(inputs@),
                    definition.modes@.len() as int,
                ) is None && profile.describes(*definition, input_uid_views(inputs@)),
                Err(kind) => profile_fault(
                    *definition,
                    input_uid_views(inputs@),
                    definition.modes@.len() as int,
                ) == Some(kind),
            },
    {
        let ghost views = input_uid_views(inputs@);
        let mut modes: Vec<Mode> = Vec::new();
        let mut m: usize = 0;
        while m < definition.modes.len()
            invariant
                m <= definition.modes.len(),
                views == input_uid_views(inputs@),
                profile_fault(*definition, views, m as int) is None,
                modes@.len() == m,
                forall|k: int|
                    0 <= k < m ==> (#[trigger] modes@[k]).describes(definition.modes@[k], views),
            decreases definition.modes.len() - m,
        {
            let mode = &definition.modes[m];
            match build_output(inputs, mode) {
                Ok(output) => {
                    modes.push(Mode { name: mode.name.clone(), output });
                },
                Err(kind) => {
                    proof {
                        lemma_profile_fault_stays(
                            *definition,
                            views,
                            m + 1,
                            definition.modes@.len() as int,
                        );
                    }
                    return Err(kind);
                },
            }
            m += 1;
        }
        Ok(Profile { name: definition.name.clone(), pattern: definition.pattern.clone(), modes })
    }
}

impl Profiles {
    /// The profiles are those that the definitions describe over the listed inputs.
    pub open spec fn describes(&self, definitions: Seq<ProfileDef>, inputs: Seq<InputUidView>)
        -> bool {
        &&& self.profiles@.len() == definitions.len()
        &&& forall|p: int|
            0 <= p < definitions.len() ==> (#[trigger] self.profiles@[p]).describes(
                definitions[p],
                inputs,
            )
    }

    /// Creates the profiles from their definitions and the list of all device inputs. The
    /// output table of each mode has one slot for each listed input; a slot does nothing
    /// unless the mode binds the input that the slot belongs to. The first definition that
    /// names an unknown input, or cannot be resolved for another reason, is reported.
    pub fn new(definitions: &Vec<ProfileDef>, device_inputs: Vec<DeviceInputUid>) -> (loaded:
        Result<Profiles, ConfigError>)
        ensures
            match loaded {
                Ok(profiles) => profiles_fault(
                    definitions@,
                    input_uid_views(device_inputs@),
                    definitions@.len() as int,
                ) is None && profiles.describes(definitions@, input_uid_views(device_inputs@)),
                Err(fault) => profiles_fault(
                    definitions@,
                    input_uid_views(device_inputs@),
                    definitions@.len() as int,
                ) == Some(fault),
            },
    {
        let ghost views = input_uid_views(device_inputs@);
        let mut profiles: Vec<Profile> = Vec::new();
        let mut p: usize = 0;
        while p < definitions.len()
            invariant
                p <= definitions.len(),
                views == input_uid_views(device_inputs@),
                profiles_fault(definitions@, views, p as int) is None,
                profiles@.len() == p,
                forall|k: int|
                    0 <= k < p ==> (#[trigger] profiles@[k]).describes(definitions@[k], views),
            decreases definitions.len() - p,
        {
            match Profile::build(&device_inputs, &definitions[p]) {
                Ok(profile) => {
                    profiles.push(profile);
                },
                Err(kind) => {
                    proof {
                        lemma_profiles_fault_stays(
                            definitions@,
                            views,
                            p + 1,
                            definitions@.len() as int,
                        );
                    }
                    return Err(ConfigError { kind, position: p });
                },
            }
            p += 1;
        }
        Ok(Profiles { profiles })
    }
}

/// The binding fills the slot `slot` of a table of the given size.
pub open spec fn fills(binding: Binding, inputs: Seq<InputUidView>, size: nat, slot: int) -> bool {
    resolve(binding, inputs, size) matches Ok((filled, _)) && filled == slot
}

/// A slot that no binding fills is left as it was.
pub proof fn lemma_unbound_slot_stays(
    table: Seq<ActionView>,
    bindings: Seq<Binding>,
    inputs: Seq<InputUidView>,
    slot: int,
)
    requires
        0 <= slot < table.len(),
        bind(table, bindings, inputs) is Ok,
        forall|k: int|
            0 <= k < bindings.len() ==> !fills(#[trigger] bindings[k], inputs, table.len(), slot),
    ensures
        bind(table, bindings, inputs)->Ok_0[slot] == table[slot],
    decreases bindings.len(),
{
    if bindings.len() > 0 {
        let earlier = bindings.drop_last();
        lemma_bind_keeps_size(table, earlier, inputs);
        assert forall|k: int| 0 <= k < earlier.len() implies !fills(
            #[trigger] earlier[k],
            inputs,
            table.len(),
            slot,
        ) by {
            assert(earlier[k] == bindings[k]);
        }
        lemma_unbound_slot_stays(table, earlier, inputs, slot);
        assert(!fills(bindings[bindings.len() - 1], inputs, table.len(), slot));
    }
}

/// The output table of a mode has one slot for each listed input, and a slot that the mode
/// does not bind does nothing.
pub proof fn lemma_output_covers_inputs(definition: ModeDef, inputs: Seq<InputUidView>, slot: int)
    requires
        mode_output(definition, inputs) is Ok,
    ensures
        mode_output(definition, inputs)->Ok_0.len() == inputs.len(),
        0 <= slot < inputs.len() && (forall|k: int|
            0 <= k < mode_bindings(definition).len() ==> !fills(
                #[trigger] mode_bindings(definition)[k],
                inputs,
                inputs.len(),
                slot,
            )) ==> mode_output(definition, inputs)->Ok_0[slot] == ActionView::NoOp,
{
    lemma_bind_keeps_size(idle_table(inputs.len()), mode_bindings(definition), inputs);
    if 0 <= slot < inputs.len() && (forall|k: int|
        0 <= k < mode_bindings(definition).len() ==> !fills(
            #[trigger] mode_bindings(definition)[k],
            inputs,
            inputs.len(),
            slot,
        )) {
        lemma_unbound_slot_stays(
            idle_table(inputs.len()),
            mode_bindings(definition),
            inputs,
            slot,
        );
    }
}

/// Where the listed inputs bear the unique ids from 0 on, as those of a well formed device
/// table do, every input that is found has its slot in a table with one slot for each.
pub proof fn lemma_found_input_has_slot(inputs: Seq<InputUidView>, device: Seq<char>, name: Seq<char>)
    requires
        forall|u: int| 0 <= u < inputs.len() ==> (#[trigger] inputs[u]).uid() == u,
    ensures
        lookup(inputs, device, name) matches Some(uid) ==> uid < inputs.len(),
    decreases inputs.len(),
{
    if inputs.len() > 0 {
        assert(inputs.last() == inputs[inputs.len() - 1]);
        assert forall|u: int| 0 <= u < inputs.drop_last().len() implies (
        #[trigger] inputs.drop_last()[u]).uid() == u by {
            assert(inputs.drop_last()[u] == inputs[u]);
        }
        lemma_found_input_has_slot(inputs.drop_last(), device, name);
    }
}

} // verus!
