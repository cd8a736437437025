use crate::device_definition::{
    DeviceByteDefinition, DeviceMapDefinition, MAX_INPUTS, byte_slots,
};
use crate::device_load::{device_at, entry_fault, first_fault, inputs_before, repeats_signature};
use crate::device_mapping::{DeviceMaps, lemma_part_is_listed, lemma_uids_dense, listed_uids};
use vstd::prelude::*;

verus! {

/// `to` holds the entries of `from` in another order: entry `k` of `to` is entry `order[k]`
/// of `from`, and `order` names every position once.
pub open spec fn is_rearrangement<A>(from: Seq<A>, to: Seq<A>, order: Seq<int>) -> bool {
    &&& order.len() == from.len()
    &&& to.len() == from.len()
    &&& order.no_duplicates()
    &&& forall|k: int|
        0 <= k < order.len() ==> 0 <= #[trigger] order[k] < from.len() && to[k] == from[order[k]]
}

/// `to` holds the entries of `from` in some order.
pub open spec fn rearranged<A>(from: Seq<A>, to: Seq<A>) -> bool {
    exists|order: Seq<int>| is_rearrangement(from, to, order)
}

/// The sum of the numbers of a list.
pub open spec fn total(counts: Seq<int>) -> int
    decreases counts.len(),
{
    if counts.len() == 0 {
        0
    } else {
        total(counts.drop_last()) + counts.last()
    }
}

/// The sum of a list is the sum of the list without one entry, and that entry.
pub proof fn lemma_total_without(counts: Seq<int>, position: int)
    requires
        0 <= position < counts.len(),
    ensures
        total(counts) == total(counts.remove(position)) + counts[position],
    decreases counts.len(),
{
    if position == counts.len() - 1 {
        assert(counts.remove(position) =~= counts.drop_last());
    } else {
        lemma_total_without(counts.drop_last(), position);
        assert(counts.remove(position).drop_last() =~= counts.drop_last().remove(position));
        assert(counts.remove(position).last() == counts.last());
    }
}

/// The sum of a list does not depend on the order of its entries.
pub proof fn lemma_total_rearranged(from: Seq<int>, to: Seq<int>, order: Seq<int>)
    requires
        is_rearrangement(from, to, order),
    ensures
        total(from) == total(to),
    decreases from.len(),
{
    let n = from.len() as int;
    if n > 0 {
        let taken = order[n - 1];
        let rest = from.remove(taken);
        let earlier = to.drop_last();
        let shifted = Seq::new(
            (n - 1) as nat,
            |k: int|
                if order[k] < taken {
                    order[k]
                } else {
                    order[k] - 1
                },
        );
        assert forall|k: int| 0 <= k < shifted.len() implies 0 <= #[trigger] shifted[k] < rest.len()
            && earlier[k] == rest[shifted[k]] by {
            assert(0 <= order[k] < n);
            assert(order[k] != order[n - 1]);
        }
        assert forall|j: int, k: int|
            0 <= j < shifted.len() && 0 <= k < shifted.len() && j != k implies shifted[j]
            != shifted[k] by {
            assert(order[j] != order[k]);
            assert(order[j] != order[n - 1]);
            assert(order[k] != order[n - 1]);
        }
        lemma_total_rearranged(rest, earlier, shifted);
        lemma_total_without(from, taken);
        assert(to.last() == from[taken]);
    }
}

/// Parts laid end to end have as many entries as the parts have together.
pub proof fn lemma_laid_length<A, B>(parts: Seq<A>, entries: spec_fn(A) -> Seq<B>)
    ensures
        parts.flat_map(entries).len() == total(
            parts.map_values(|part: A| entries(part).len() as int),
        ),
    decreases parts.len(),
{
    let lengths = |part: A| entries(part).len() as int;
    if parts.len() == 0 {
        assert(parts.flat_map(entries) =~= Seq::empty());
    } else {
        let earlier = parts.drop_last();
        assert(parts =~= earlier.push(parts.last()));
        earlier.lemma_flat_map_push(entries, parts.last());
        lemma_laid_length(earlier, entries);
        assert(parts.map_values(lengths).drop_last() =~= earlier.map_values(lengths));
    }
}

/// Every entry of parts laid end to end is an entry of one of the parts.
pub proof fn lemma_entry_has_part<A, B>(parts: Seq<A>, entries: spec_fn(A) -> Seq<B>, at: int)
    requires
        0 <= at < parts.flat_map(entries).len(),
    ensures
        exists|part: int, entry: int|
            0 <= part < parts.len() && 0 <= entry < entries(parts[part]).len() && (
            #[trigger] entries(parts[part])[entry]) == parts.flat_map(entries)[at],
    decreases parts.len(),
{
    if parts.len() == 0 {
        assert(parts.flat_map(entries) =~= Seq::empty());
    } else {
        let earlier = parts.drop_last();
        assert(parts =~= earlier.push(parts.last()));
        earlier.lemma_flat_map_push(entries, parts.last());
        let before = earlier.flat_map(entries).len();
        if at < before {
            lemma_entry_has_part(earlier, entries, at);
            let (part, entry) = choose|part: int, entry: int|
                0 <= part < earlier.len() && 0 <= entry < entries(earlier[part]).len() && (
                #[trigger] entries(earlier[part])[entry]) == earlier.flat_map(entries)[at];
            assert(entries(parts[part])[entry] == parts.flat_map(entries)[at]);
        } else {
            let part = parts.len() - 1;
            assert(entries(parts[part])[at - before] == parts.flat_map(entries)[at]);
        }
    }
}

/// The number of inputs of each definition of a list.
pub open spec fn input_counts(definitions: Seq<(u32, DeviceMapDefinition)>) -> Seq<int> {
    definitions.map_values(|entry: (u32, DeviceMapDefinition)| entry.1.input_count() as int)
}

/// The inputs of the first `count` definitions are those of each of them together.
pub proof fn lemma_inputs_before_is_total(definitions: Seq<(u32, DeviceMapDefinition)>, count: int)
    requires
        0 <= count <= definitions.len(),
    ensures
        inputs_before(definitions, count) == total(input_counts(definitions.take(count))),
    decreases count,
{
    if count > 0 {
        lemma_inputs_before_is_total(definitions, count - 1);
        assert(input_counts(definitions.take(count)).drop_last() =~= input_counts(
            definitions.take(count - 1),
        ));
    }
}

/// The number of inputs before a definition grows with its position.
pub proof fn lemma_inputs_before_grows(
    definitions: Seq<(u32, DeviceMapDefinition)>,
    count: int,
    more: int,
)
    requires
        0 <= count <= more,
    ensures
        inputs_before(definitions, count) <= inputs_before(definitions, more),
    decreases more - count,
{
    if count < more {
        lemma_inputs_before_grows(definitions, count, more - 1);
    }
}

/// The definition has no fault of its own: no byte definition has more than eight names,
/// every input reads a byte of the report, and every digital has a bit to test.
pub open spec fn sound(definition: DeviceMapDefinition) -> bool {
    &&& !definition.too_many_names()
    &&& forall|i: int|
        0 <= i < definition.digital_slots().len() ==> (#[trigger] definition.digital_slots()[i]).index
            < definition.packet_size && definition.digital_slots()[i].mask != 0
    &&& forall|j: int|
        0 <= j < definition.declared_analogs().len() ==> (
        #[trigger] definition.declared_analogs()[j]).index < definition.packet_size
}

/// The first `count` definitions can be loaded: each is sound, no two share a signature, and
/// together they have no more inputs than there are unique ids.
pub open spec fn loads(definitions: Seq<(u32, DeviceMapDefinition)>, count: int) -> bool {
    &&& forall|i: int| 0 <= i < count ==> sound((#[trigger] definitions[i]).1)
    &&& forall|i: int, j: int|
        0 <= i < j < count ==> (#[trigger] definitions[i]).0 != (#[trigger] definitions[j]).0
    &&& inputs_before(definitions, count) <= MAX_INPUTS
}

/// A definition that lists no byte with more than eight names is sound exactly if the device
/// that it describes is well formed, whatever unique ids its inputs get.
pub proof fn lemma_sound_is_well_formed(definition: DeviceMapDefinition, base: int)
    requires
        !definition.too_many_names(),
    ensures
        sound(definition) <==> definition.device(base).well_formed(),
{
    let device = definition.device(base);
    if sound(definition) {
        assert forall|i: int| 0 <= i < device.digitals.len() implies (#[trigger] device.digitals[i]).index
            < device.packet_size && device.digitals[i].mask != 0 by {
            assert(definition.digital_slots()[i].index < definition.packet_size);
        }
        assert forall|j: int| 0 <= j < device.analogs.len() implies (#[trigger] device.analogs[j]).index
            < device.packet_size by {
            assert(definition.declared_analogs()[j].index < definition.packet_size);
        }
    }
    if device.well_formed() {
        assert forall|i: int| 0 <= i < definition.digital_slots().len() implies (
        #[trigger] definition.digital_slots()[i]).index < definition.packet_size
            && definition.digital_slots()[i].mask != 0 by {
            assert(device.digitals[i].index < device.packet_size);
            assert(device.digitals[i].mask != 0);
        }
        assert forall|j: int| 0 <= j < definition.declared_analogs().len() implies (
        #[trigger] definition.declared_analogs()[j]).index < definition.packet_size by {
            assert(device.analogs[j].index < device.packet_size);
        }
    }
}

/// No fault is found among the first `count` definitions exactly if they can be loaded.
pub proof fn lemma_no_fault_where_loads(definitions: Seq<(u32, DeviceMapDefinition)>, count: int)
    requires
        0 <= count <= definitions.len(),
    ensures
        first_fault(definitions, count) is None <==> loads(definitions, count),
    decreases count,
{
    if count > 0 {
        let at = count - 1;
        lemma_no_fault_where_loads(definitions, at);
        lemma_inputs_before_grows(definitions, at, count);
        let definition = definitions[at].1;
        if !definition.too_many_names() {
            lemma_sound_is_well_formed(definition, inputs_before(definitions, at) as int);
        }
        if loads(definitions, count) {
            assert(loads(definitions, at));
            assert(sound(definitions[at].1));
            assert(!repeats_signature(definitions, at));
            assert(entry_fault(definitions, at) is None);
        }
        if first_fault(definitions, count) is None {
            assert(first_fault(definitions, at) is None);
            assert(entry_fault(definitions, at) is None);
            assert(device_at(definitions, at).well_formed());
            assert(sound(definition));
            assert forall|i: int, j: int| 0 <= i < j < count implies (#[trigger] definitions[i]).0
                != (#[trigger] definitions[j]).0 by {
                if j == at && definitions[i].0 == definitions[j].0 {
                    assert(repeats_signature(definitions, at));
                }
            }
        }
    }
}

/// `to` describes the device of `from` with its digitals, its byte definitions and its
/// analogs each listed in some other order.
pub open spec fn same_device(from: DeviceMapDefinition, to: DeviceMapDefinition) -> bool {
    &&& to.name@ == from.name@
    &&& to.packet_size == from.packet_size
    &&& rearranged(from.declared_digitals(), to.declared_digitals())
    &&& rearranged(from.declared_bytes(), to.declared_bytes())
    &&& rearranged(from.declared_analogs(), to.declared_analogs())
}

/// The order in which a definition lists its digitals, its byte definitions and its analogs
/// changes neither how many digitals and analogs the device has nor whether the definition
/// is sound.
pub proof fn lemma_same_device(from: DeviceMapDefinition, to: DeviceMapDefinition)
    requires
        same_device(from, to),
    ensures
        to.digital_slots().len() == from.digital_slots().len(),
        to.declared_analogs().len() == from.declared_analogs().len(),
        to.input_count() == from.input_count(),
        sound(from) ==> sound(to),
{
    let digitals = choose|order: Seq<int>|
        is_rearrangement(from.declared_digitals(), to.declared_digitals(), order);
    let bytes = choose|order: Seq<int>|
        is_rearrangement(from.declared_bytes(), to.declared_bytes(), order);
    let analogs = choose|order: Seq<int>|
        is_rearrangement(from.declared_analogs(), to.declared_analogs(), order);
    let slots = |byte: DeviceByteDefinition| byte_slots(byte.index, byte.names@);
    let lengths = |byte: DeviceByteDefinition| slots(byte).len() as int;
    lemma_laid_length(from.declared_bytes(), slots);
    lemma_laid_length(to.declared_bytes(), slots);
    assert(is_rearrangement(
        from.declared_bytes().map_values(lengths),
        to.declared_bytes().map_values(lengths),
        bytes,
    )) by {
        assert forall|k: int| 0 <= k < bytes.len() implies 0 <= #[trigger] bytes[k]
            < from.declared_bytes().map_values(lengths).len() && to.declared_bytes().map_values(
            lengths,
        )[k] == from.declared_bytes().map_values(lengths)[bytes[k]] by {
            assert(to.declared_bytes()[k] == from.declared_bytes()[bytes[k]]);
        }
    }
    lemma_total_rearranged(
        from.declared_bytes().map_values(lengths),
        to.declared_bytes().map_values(lengths),
        bytes,
    );
    assert(to.expanded_slots().len() == from.expanded_slots().len());
    assert(to.button_slots().len() == from.button_slots().len());
    if sound(from) {
        if to.too_many_names() {
            let b = choose|b: int|
                0 <= b < to.declared_bytes().len() && (#[trigger] to.declared_bytes()[b]).names@.len()
                    > 8;
            assert(to.declared_bytes()[b] == from.declared_bytes()[bytes[b]]);
            assert(from.declared_bytes()[bytes[b]].names@.len() > 8);
        }
        let buttons = to.button_slots().len() as int;
        assert forall|i: int| 0 <= i < to.digital_slots().len() implies (#[trigger] to.digital_slots()[i]).index
            < to.packet_size && to.digital_slots()[i].mask != 0 by {
            if i < buttons {
                assert(to.declared_digitals()[i] == from.declared_digitals()[digitals[i]]);
                assert(to.digital_slots()[i] == from.digital_slots()[digitals[i]]);
            } else {
                lemma_entry_has_part(to.declared_bytes(), slots, i - buttons);
                let (part, entry) = choose|part: int, entry: int|
                    0 <= part < to.declared_bytes().len() && 0 <= entry < slots(
                        to.declared_bytes()[part],
                    ).len() && (#[trigger] slots(to.declared_bytes()[part])[entry])
                        == to.declared_bytes().flat_map(slots)[i - buttons];
                assert(to.declared_bytes()[part] == from.declared_bytes()[bytes[part]]);
                lemma_part_is_listed(from.declared_bytes(), slots, bytes[part], entry);
                let at = choose|at: int|
                    0 <= at < from.declared_bytes().flat_map(slots).len() && (
                    #[trigger] from.declared_bytes().flat_map(slots)[at]) == slots(
                        from.declared_bytes()[bytes[part]],
                    )[entry];
                assert(to.digital_slots()[i] == from.digital_slots()[buttons + at]);
            }
        }
        assert forall|j: int| 0 <= j < to.declared_analogs().len() implies (
        #[trigger] to.declared_analogs()[j]).index < to.packet_size by {
            assert(to.declared_analogs()[j] == from.declared_analogs()[analogs[j]]);
        }
    }
}

/// `to` lists the devices of `from` in another order, entry `k` of `to` being entry
/// `order[k]` of `from` under the same signature, and each device with its digitals, its byte
/// definitions and its analogs in some other order.
pub open spec fn is_reordering(
    from: Seq<(u32, DeviceMapDefinition)>,
    to: Seq<(u32, DeviceMapDefinition)>,
    order: Seq<int>,
) -> bool {
    &&& order.len() == from.len()
    &&& to.len() == from.len()
    &&& order.no_duplicates()
    &&& forall|k: int|
        0 <= k < order.len() ==> 0 <= #[trigger] order[k] < from.len() && to[k].0
            == from[order[k]].0 && same_device(from[order[k]].1, to[k].1)
}

/// `to` differs from `from` only in the order of the devices and in the order in which each
/// device lists its digitals, its byte definitions and its analogs.
pub open spec fn reordered(
    from: Seq<(u32, DeviceMapDefinition)>,
    to: Seq<(u32, DeviceMapDefinition)>,
) -> bool {
    exists|order: Seq<int>| is_reordering(from, to, order)
}

/// Where a list of definitions can be loaded, so can every list that differs from it only
/// in order; both have the same number of inputs, hence the same unique ids, and each device
/// has as many digitals and as many analogs in the one as in the other.
pub proof fn lemma_order_is_immaterial(
    from: Seq<(u32, DeviceMapDefinition)>,
    to: Seq<(u32, DeviceMapDefinition)>,
)
    requires
        reordered(from, to),
        first_fault(from, from.len() as int) is None,
    ensures
        first_fault(to, to.len() as int) is None,
        inputs_before(to, to.len() as int) == inputs_before(from, from.len() as int),
        Set::new(|uid: u16| uid < inputs_before(to, to.len() as int)) == Set::new(
            |uid: u16| uid < inputs_before(from, from.len() as int),
        ),
        forall|k: int|
            0 <= k < to.len() ==> exists|i: int|
                0 <= i < from.len() && (#[trigger] from[i]).0 == (#[trigger] to[k]).0
                    && from[i].1.digital_slots().len() == to[k].1.digital_slots().len()
                    && from[i].1.declared_analogs().len() == to[k].1.declared_analogs().len(),
{
    let order = choose|order: Seq<int>| is_reordering(from, to, order);
    let n = from.len() as int;
    lemma_no_fault_where_loads(from, n);
    assert forall|k: int| 0 <= k < n implies sound((#[trigger] to[k]).1) && to[k].1.input_count()
        == from[order[k]].1.input_count() && from[order[k]].1.digital_slots().len()
        == to[k].1.digital_slots().len() && from[order[k]].1.declared_analogs().len()
        == to[k].1.declared_analogs().len() by {
        assert(0 <= order[k] < n);
        lemma_same_device(from[order[k]].1, to[k].1);
        assert(sound(from[order[k]].1));
    }
    assert(is_rearrangement(input_counts(from), input_counts(to), order)) by {
        assert forall|k: int| 0 <= k < order.len() implies 0 <= #[trigger] order[k]
            < input_counts(from).len() && input_counts(to)[k] == input_counts(from)[order[k]] by {
            assert(to[k].1.input_count() == from[order[k]].1.input_count());
        }
    }
    lemma_total_rearranged(input_counts(from), input_counts(to), order);
    lemma_inputs_before_is_total(from, n);
    lemma_inputs_before_is_total(to, n);
    assert(from.take(n) =~= from);
    assert(to.take(n) =~= to);
    assert forall|i: int, j: int| 0 <= i < j < n implies (#[trigger] to[i]).0 != (#[trigger] to[j]).0 by {
        assert(order[i] != order[j]);
        assert(0 <= order[i] < n && 0 <= order[j] < n);
        if order[i] < order[j] {
            assert(from[order[i]].0 != from[order[j]].0);
        } else {
            assert(from[order[j]].0 != from[order[i]].0);
        }
    }
    assert(loads(to, n));
    lemma_no_fault_where_loads(to, n);
    assert forall|k: int| 0 <= k < to.len() implies exists|i: int|
        0 <= i < from.len() && (#[trigger] from[i]).0 == (#[trigger] to[k]).0
            && from[i].1.digital_slots().len() == to[k].1.digital_slots().len()
            && from[i].1.declared_analogs().len() == to[k].1.declared_analogs().len() by {
        let i = order[k];
        assert(0 <= i < n);
        assert(sound(to[k].1));
        assert(from[i].0 == to[k].0);
    }
}

/// Two tables loaded from lists of definitions that differ only in order give out the same
/// unique ids: the numbers from 0 to one less than the number of inputs of either list.
pub proof fn lemma_loaded_orders_agree(
    from: Seq<(u32, DeviceMapDefinition)>,
    to: Seq<(u32, DeviceMapDefinition)>,
    first: DeviceMaps,
    second: DeviceMaps,
)
    requires
        reordered(from, to),
        first_fault(from, from.len() as int) is None,
        first.well_formed(),
        first.inputs().len() == inputs_before(from, from.len() as int),
        second.well_formed(),
        second.inputs().len() == inputs_before(to, to.len() as int),
    ensures
        listed_uids(first.inputs()).to_set() == listed_uids(second.inputs()).to_set(),
        listed_uids(first.inputs()) == listed_uids(second.inputs()),
{
    lemma_order_is_immaterial(from, to);
    lemma_uids_dense(first);
    lemma_uids_dense(second);
}

} // verus!
