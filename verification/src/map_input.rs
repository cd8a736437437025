use crate::device_mapping::{
    AnalogView, DeviceAnalogInput, DeviceDigitalInput, DigitalView, analog_views, digital_views,
};
use crate::input::Input;
use vstd::prelude::*;

verus! {

/// What the reader of one device remembers between two reports.
pub struct MapInput {
    pressed: Vec<bool>,
    analogs: Vec<u8>,
}

/// What a [`MapInput`] holds: for each digital input whether it was pressed in the last
/// report, and for each analog input its last raw byte.
pub struct MapInputView {
    pub pressed: Seq<bool>,
    pub analogs: Seq<u8>,
}

impl View for MapInput {
    type V = MapInputView;

    closed spec fn view(&self) -> MapInputView {
        MapInputView { pressed: self.pressed@, analogs: self.analogs@ }
    }
}

/// Whether `buffer` shows the digital input pressed.
pub open spec fn pressed_in(digital: DigitalView, buffer: Seq<u8>) -> bool {
    buffer[digital.index as int] & digital.mask != 0
}

/// The event of a digital input that was `pressed` before and is `now` pressed or not.
pub open spec fn button_edge(uid: u16, pressed: bool, now: bool) -> Option<Input> {
    if now && !pressed {
        Some(Input::ButtonDown(uid))
    } else if !now && pressed {
        Some(Input::ButtonUp(uid))
    } else {
        None
    }
}

/// The event of an analog input whose raw byte was `previous` and is `current`.
pub open spec fn axis_change(analog: AnalogView, previous: u8, current: u8) -> Option<Input> {
    if current != previous {
        Some(Input::Axis(analog.uid, analog.convert(current), analog.convert(previous)))
    } else {
        None
    }
}

impl MapInputView {
    /// The state fits the inputs and the report: it remembers every input, and every input
    /// reads a byte of the report.
    pub open spec fn fits(self, digitals: Seq<DigitalView>, analogs: Seq<AnalogView>, buffer: Seq<u8>)
        -> bool {
        &&& digitals.len() <= self.pressed.len()
        &&& analogs.len() <= self.analogs.len()
        &&& forall|i: int| 0 <= i < digitals.len() ==> (#[trigger] digitals[i]).index < buffer.len()
        &&& forall|j: int| 0 <= j < analogs.len() ==> (#[trigger] analogs[j]).index < buffer.len()
    }

    /// For each digital input, in declaration order, its event if it has one.
    pub open spec fn button_edges(self, digitals: Seq<DigitalView>, buffer: Seq<u8>) -> Seq<
        Option<Input>,
    > {
        Seq::new(
            digitals.len(),
            |i: int| button_edge(digitals[i].uid, self.pressed[i], pressed_in(digitals[i], buffer)),
        )
    }

    /// For each analog input, in declaration order, its event if it has one.
    pub open spec fn axis_changes(self, analogs: Seq<AnalogView>, buffer: Seq<u8>) -> Seq<
        Option<Input>,
    > {
        Seq::new(
            analogs.len(),
            |j: int| axis_change(analogs[j], self.analogs[j], buffer[analogs[j].index as int]),
        )
    }

    /// The events of one report: those of the digital inputs in declaration order, then those
    /// of the analog inputs in declaration order.
    pub open spec fn events(
        self,
        digitals: Seq<DigitalView>,
        analogs: Seq<AnalogView>,
        buffer: Seq<u8>,
    ) -> Seq<Input> {
        self.button_edges(digitals, buffer).filter_map(|edge: Option<Input>| edge)
            + self.axis_changes(analogs, buffer).filter_map(|change: Option<Input>| change)
    }

    /// The state after one report: every input is remembered as the report shows it.
    pub open spec fn after(
        self,
        digitals: Seq<DigitalView>,
        analogs: Seq<AnalogView>,
        buffer: Seq<u8>,
    ) -> MapInputView {
        MapInputView {
            pressed: Seq::new(
                self.pressed.len(),
                |i: int|
                    if i < digitals.len() {
                        pressed_in(digitals[i], buffer)
                    } else {
                        self.pressed[i]
                    },
            ),
            analogs: Seq::new(
                self.analogs.len(),
                |j: int|
                    if j < analogs.len() {
                        buffer[analogs[j].index as int]
                    } else {
                        self.analogs[j]
                    },
            ),
        }
    }
}

impl MapInput {
    /// A state in which no digital input is pressed and every analog input is at raw byte 0.
    pub fn new(num_digitals: usize, num_analogs: usize) -> (mapper: MapInput)
        ensures
            mapper@.pressed == Seq::new(num_digitals as nat, |i: int| false),
            mapper@.analogs == Seq::new(num_analogs as nat, |j: int| 0u8),
    {
        let mut pressed: Vec<bool> = Vec::new();
        let mut i: usize = 0;
        while i < num_digitals
            invariant
                i <= num_digitals,
                pressed@ == Seq::new(i as nat, |i: int| false),
            decreases num_digitals - i,
        {
            pressed.push(false);
            assert(pressed@ =~= Seq::new((i + 1) as nat, |i: int| false));
            i += 1;
        }
        let mut analogs: Vec<u8> = Vec::new();
        let mut j: usize = 0;
        while j < num_analogs
            invariant
                j <= num_analogs,
                analogs@ == Seq::new(j as nat, |j: int| 0u8),
            decreases num_analogs - j,
        {
            analogs.push(0);
            assert(analogs@ =~= Seq::new((j + 1) as nat, |j: int| 0u8));
            j += 1;
        }
        MapInput { pressed, analogs }
    }

    /// Decodes one report. Each digital input whose pressed state differs from the last report
    /// gives `ButtonDown` or `ButtonUp`; then each analog input whose raw byte differs gives
    /// `Axis` with the new and the old output value. The state remembers the report.
    pub fn generate_input(
        &mut self,
        digitals: &[DeviceDigitalInput],
        analogs: &[DeviceAnalogInput],
        buffer: &[u8],
    ) -> (events: Vec<Input>)
        requires
            old(self)@.fits(digital_views(digitals@), analog_views(analogs@), buffer@),
        ensures
            events@ == old(self)@.events(digital_views(digitals@), analog_views(analogs@), buffer@),
            final(self)@ == old(self)@.after(
                digital_views(digitals@),
                analog_views(analogs@),
                buffer@,
            ),
    {
        let ghost before = self@;
        let ghost dviews = digital_views(digitals@);
        let ghost aviews = analog_views(analogs@);
        let ghost edges = before.button_edges(dviews, buffer@);
        let ghost changes = before.axis_changes(aviews, buffer@);
        let ghost same = |edge: Option<Input>| edge;
        let mut res: Vec<Input> = Vec::new();
        assert(edges.take(0).filter_map(same) =~= Seq::empty());
        let mut i: usize = 0;
        while i < digitals.len()
            invariant
                i <= digitals.len(),
                before.fits(dviews, aviews, buffer@),
                dviews == digital_views(digitals@),
                edges == before.button_edges(dviews, buffer@),
                same == |edge: Option<Input>| edge,
                self.analogs@ == before.analogs,
                self.pressed@.len() == before.pressed.len(),
                forall|k: int|
                    0 <= k < self.pressed@.len() ==> self.pressed@[k] == if k < i {
                        pressed_in(dviews[k], buffer@)
                    } else {
                        before.pressed[k]
                    },
                res@ == edges.take(i as int).filter_map(same),
            decreases digitals.len() - i,
        {
            let digital = &digitals[i];
            assert(dviews[i as int] == digital@);
            let pressed_now = buffer[digital.index as usize] & digital.mask != 0;
            let pressed_already = self.pressed[i];
            proof {
                edges.lemma_filter_map_take_succ(same, i as int);
            }
            if pressed_now && !pressed_already {
                res.push(Input::ButtonDown(digital.uid));
                self.pressed[i] = true;
            } else if !pressed_now && pressed_already {
                res.push(Input::ButtonUp(digital.uid));
                self.pressed[i] = false;
            }
            assert(res@ =~= edges.take(i + 1).filter_map(same));
            i += 1;
        }
        assert(edges.take(edges.len() as int) =~= edges);
        let ghost digital_part = res@;
        assert(changes.take(0).filter_map(same) =~= Seq::empty());
        let mut j: usize = 0;
        while j < analogs.len()
            invariant
                j <= analogs.len(),
                before.fits(dviews, aviews, buffer@),
                aviews == analog_views(analogs@),
                changes == before.axis_changes(aviews, buffer@),
                same == |edge: Option<Input>| edge,
                self.pressed@ == before.after(dviews, aviews, buffer@).pressed,
                self.analogs@.len() == before.analogs.len(),
                forall|k: int|
                    0 <= k < self.analogs@.len() ==> self.analogs@[k] == if k < j {
                        buffer@[aviews[k].index as int]
                    } else {
                        before.analogs[k]
                    },
                res@ == digital_part + changes.take(j as int).filter_map(same),
            decreases analogs.len() - j,
        {
            let analog = &analogs[j];
            assert(aviews[j as int] == analog@);
            let current = buffer[analog.index as usize];
            proof {
                changes.lemma_filter_map_take_succ(same, j as int);
            }
            if current != self.analogs[j] {
                let old_value = self.analogs[j];
                self.analogs[j] = current;
                res.push(Input::Axis(analog.uid, analog.convert(current), analog.convert(old_value)));
            }
            assert(res@ =~= digital_part + changes.take(j + 1).filter_map(same));
            j += 1;
        }
        assert(changes.take(changes.len() as int) =~= changes);
        assert(self@.pressed =~= before.after(dviews, aviews, buffer@).pressed);
        assert(self@.analogs =~= before.after(dviews, aviews, buffer@).analogs);
        res
    }
}

/// Whether the input `uid` is pressed after `events`, where it was `pressed` before them.
pub open spec fn pressed_after(events: Seq<Input>, uid: u16, pressed: bool) -> bool
    decreases events.len(),
{
    if events.len() == 0 {
        pressed
    } else if events.last() == Input::ButtonDown(uid) {
        true
    } else if events.last() == Input::ButtonUp(uid) {
        false
    } else {
        pressed_after(events.drop_last(), uid, pressed)
    }
}

/// In `events`, presses and releases of the input `uid` take turns, where it was `pressed`
/// before them: no `ButtonDown(uid)` comes while it is pressed, and no `ButtonUp(uid)` while
/// it is released.
pub open spec fn alternates(events: Seq<Input>, uid: u16, pressed: bool) -> bool
    decreases events.len(),
{
    if events.len() == 0 {
        true
    } else {
        &&& alternates(events.drop_last(), uid, pressed)
        &&& events.last() == Input::ButtonDown(uid) ==> !pressed_after(
            events.drop_last(),
            uid,
            pressed,
        )
        &&& events.last() == Input::ButtonUp(uid) ==> pressed_after(
            events.drop_last(),
            uid,
            pressed,
        )
    }
}

/// Presses and releases take turns in two runs of events one after the other exactly if they
/// do in the first and, from the state that the first leaves, in the second.
pub proof fn lemma_alternates_append(first: Seq<Input>, second: Seq<Input>, uid: u16, pressed: bool)
    ensures
        pressed_after(first + second, uid, pressed) == pressed_after(
            second,
            uid,
            pressed_after(first, uid, pressed),
        ),
        alternates(first + second, uid, pressed) == (alternates(first, uid, pressed) && alternates(
            second,
            uid,
            pressed_after(first, uid, pressed),
        )),
    decreases second.len(),
{
    if second.len() == 0 {
        assert(first + second =~= first);
    } else {
        assert((first + second).drop_last() =~= first + second.drop_last());
        assert((first + second).last() == second.last());
        lemma_alternates_append(first, second.drop_last(), uid, pressed);
    }
}

/// No two digital inputs share a unique id.
pub open spec fn distinct_uids(digitals: Seq<DigitalView>) -> bool {
    forall|i: int, k: int|
        0 <= i < digitals.len() && 0 <= k < digitals.len() && i != k ==> (
        #[trigger] digitals[i]).uid != (#[trigger] digitals[k]).uid
}

/// The events of a sequence of reports, decoded one after the other.
pub open spec fn decoded(
    state: MapInputView,
    digitals: Seq<DigitalView>,
    analogs: Seq<AnalogView>,
    reports: Seq<Seq<u8>>,
) -> Seq<Input>
    decreases reports.len(),
{
    if reports.len() == 0 {
        Seq::empty()
    } else {
        state.events(digitals, analogs, reports[0]) + decoded(
            state.after(digitals, analogs, reports[0]),
            digitals,
            analogs,
            reports.drop_first(),
        )
    }
}

proof fn lemma_button_edges_alternate(
    state: MapInputView,
    digitals: Seq<DigitalView>,
    buffer: Seq<u8>,
    which: int,
    count: int,
)
    requires
        distinct_uids(digitals),
        0 <= which < digitals.len() <= state.pressed.len(),
        0 <= count <= digitals.len(),
    ensures
        ({
            let events = state.button_edges(digitals, buffer).take(count).filter_map(
                |edge: Option<Input>| edge,
            );
            &&& alternates(events, digitals[which].uid, state.pressed[which])
            &&& pressed_after(events, digitals[which].uid, state.pressed[which]) == if count
                > which {
                pressed_in(digitals[which], buffer)
            } else {
                state.pressed[which]
            }
        }),
    decreases count,
{
    let same = |edge: Option<Input>| edge;
    let edges = state.button_edges(digitals, buffer);
    if count == 0 {
        assert(edges.take(0).filter_map(same) =~= Seq::empty());
    } else {
        lemma_button_edges_alternate(state, digitals, buffer, which, count - 1);
        edges.lemma_filter_map_take_succ(same, count - 1);
        let earlier = edges.take(count - 1).filter_map(same);
        match edges[count - 1] {
            Some(event) => {
                assert((earlier + seq![event]).drop_last() =~= earlier);
                assert((earlier + seq![event]).last() == event);
            },
            None => {
                assert(earlier + Seq::<Input>::empty() =~= earlier);
            },
        }
    }
}

proof fn lemma_axis_changes_keep(
    state: MapInputView,
    analogs: Seq<AnalogView>,
    buffer: Seq<u8>,
    uid: u16,
    pressed: bool,
    count: int,
)
    requires
        0 <= count <= analogs.len(),
    ensures
        ({
            let events = state.axis_changes(analogs, buffer).take(count).filter_map(
                |change: Option<Input>| change,
            );
            alternates(events, uid, pressed) && pressed_after(events, uid, pressed) == pressed
        }),
    decreases count,
{
    let same = |change: Option<Input>| change;
    let changes = state.axis_changes(analogs, buffer);
    if count == 0 {
        assert(changes.take(0).filter_map(same) =~= Seq::empty());
    } else {
        lemma_axis_changes_keep(state, analogs, buffer, uid, pressed, count - 1);
        changes.lemma_filter_map_take_succ(same, count - 1);
        let earlier = changes.take(count - 1).filter_map(same);
        match changes[count - 1] {
            Some(event) => {
                assert((earlier + seq![event]).drop_last() =~= earlier);
                assert((earlier + seq![event]).last() == event);
            },
            None => {
                assert(earlier + Seq::<Input>::empty() =~= earlier);
            },
        }
    }
}

/// In the events of one report the presses and releases of each digital input take turns,
/// and they leave it as the state then remembers it.
pub proof fn lemma_report_alternates(
    state: MapInputView,
    digitals: Seq<DigitalView>,
    analogs: Seq<AnalogView>,
    buffer: Seq<u8>,
    which: int,
)
    requires
        distinct_uids(digitals),
        state.fits(digitals, analogs, buffer),
        0 <= which < digitals.len(),
    ensures
        alternates(
            state.events(digitals, analogs, buffer),
            digitals[which].uid,
            state.pressed[which],
        ),
        pressed_after(
            state.events(digitals, analogs, buffer),
            digitals[which].uid,
            state.pressed[which],
        ) == state.after(digitals, analogs, buffer).pressed[which],
{
    let edges = state.button_edges(digitals, buffer);
    let changes = state.axis_changes(analogs, buffer);
    let uid = digitals[which].uid;
    lemma_button_edges_alternate(state, digitals, buffer, which, digitals.len() as int);
    assert(edges.take(digitals.len() as int) =~= edges);
    let first = edges.filter_map(|edge: Option<Input>| edge);
    lemma_axis_changes_keep(
        state,
        analogs,
        buffer,
        uid,
        pressed_after(first, uid, state.pressed[which]),
        analogs.len() as int,
    );
    assert(changes.take(analogs.len() as int) =~= changes);
    lemma_alternates_append(
        first,
        changes.filter_map(|change: Option<Input>| change),
        uid,
        state.pressed[which],
    );
}

/// Over any sequence of reports, the events of a digital input never hold two `ButtonDown`
/// without a `ButtonUp` between them, nor two `ButtonUp` without a `ButtonDown` between them.
pub proof fn lemma_presses_alternate(
    state: MapInputView,
    digitals: Seq<DigitalView>,
    analogs: Seq<AnalogView>,
    reports: Seq<Seq<u8>>,
    which: int,
)
    requires
        distinct_uids(digitals),
        forall|r: int| 0 <= r < reports.len() ==> state.fits(digitals, analogs, #[trigger] reports[r]),
        0 <= which < digitals.len(),
    ensures
        alternates(
            decoded(state, digitals, analogs, reports),
            digitals[which].uid,
            state.pressed[which],
        ),
    decreases reports.len(),
{
    if reports.len() > 0 {
        let next = state.after(digitals, analogs, reports[0]);
        let rest = reports.drop_first();
        lemma_report_alternates(state, digitals, analogs, reports[0], which);
        assert forall|r: int| 0 <= r < rest.len() implies next.fits(
            digitals,
            analogs,
            #[trigger] rest[r],
        ) by {
            assert(rest[r] == reports[r + 1]);
            assert(state.fits(digitals, analogs, reports[r + 1]));
        }
        lemma_presses_alternate(next, digitals, analogs, rest, which);
        lemma_alternates_append(
            state.events(digitals, analogs, reports[0]),
            decoded(next, digitals, analogs, rest),
            digitals[which].uid,
            state.pressed[which],
        );
    }
}

} // verus!
