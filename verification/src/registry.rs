use vstd::prelude::*;

use crate::classifier::spec_classify;
use crate::device::{
    Device, DeviceState, DeviceStateView, DeviceView, EventView, MacAddr, NotificationEvent,
};
use crate::history::push_sample;
use crate::HISTORY_SIZE;

verus! {

/// Relies on chrono::Local::now, read as Unix seconds through
/// DateTime::timestamp: the host's current wall-clock time. Nothing is
/// assumed of the value.
#[verifier::external_body]
fn current_timestamp() -> i64 {
    chrono::Local::now().timestamp()
}

/// The views of a sequence of observed devices.
pub open spec fn device_views(s: Seq<Device>) -> Seq<DeviceView> {
    s.map_values(|d: Device| d@)
}

/// The views of a sequence of notification events.
pub open spec fn event_views(s: Seq<NotificationEvent>) -> Seq<EventView> {
    s.map_values(|e: NotificationEvent| e@)
}

/// The views of a sequence of device states.
pub open spec fn state_views(s: Seq<DeviceState>) -> Seq<DeviceStateView> {
    s.map_values(|st: DeviceState| st@)
}

/// Whether some observation in `obs` carries the identifier `mac`.
pub open spec fn observed_has(obs: Seq<DeviceView>, mac: Seq<char>) -> bool {
    exists|i: int| 0 <= i < obs.len() && obs[i].mac == mac
}

/// Whether the registry holds a device with the identifier `mac`.
pub open spec fn reg_has(reg: Seq<DeviceStateView>, mac: Seq<char>) -> bool {
    exists|i: int| 0 <= i < reg.len() && reg[i].device.mac == mac
}

/// The position of the device with identifier `mac`; meaningful only when
/// `reg_has(reg, mac)` holds and identifiers are unique.
pub open spec fn reg_index_of(reg: Seq<DeviceStateView>, mac: Seq<char>) -> int {
    choose|i: int| 0 <= i < reg.len() && reg[i].device.mac == mac
}

/// Registry well-formedness: identifiers are unique and no window has
/// outgrown its capacity.
pub open spec fn reg_wf(reg: Seq<DeviceStateView>) -> bool {
    &&& forall|i: int, j: int|
        0 <= i < j < reg.len() ==> (#[trigger] reg[i].device.mac) != (#[trigger] reg[j].device.mac)
    &&& forall|i: int| 0 <= i < reg.len() ==> (#[trigger] reg[i].history).len() <= HISTORY_SIZE
}

/// The registry state created the first time a device is observed: online
/// belief, and a window holding this round's single `true` sample.
pub open spec fn fresh_state(d: DeviceView, now: i64) -> DeviceStateView {
    DeviceStateView { device: d, last_seen: now, is_connected: true, history: seq![true] }
}

/// Effect of one observed device on the registry: a known device gets its
/// observation recorded (address and label overwritten, `last_seen` updated,
/// a `true` sample pushed); an unknown one is added as a fresh state and
/// announced at once with a `became_online` event.
pub open spec fn observe_one(reg: Seq<DeviceStateView>, d: DeviceView, now: i64) -> (
    Seq<DeviceStateView>,
    Seq<EventView>,
) {
    if reg_has(reg, d.mac) {
        let i = reg_index_of(reg, d.mac);
        let st = reg[i];
        (
            reg.update(
                i,
                DeviceStateView {
                    device: d,
                    last_seen: now,
                    is_connected: st.is_connected,
                    history: push_sample(st.history, true),
                },
            ),
            Seq::<EventView>::empty(),
        )
    } else {
        (reg.push(fresh_state(d, now)), seq![EventView { device: d, became_online: true }])
    }
}

/// Effect of a whole observation sequence, applied in order.
pub open spec fn observe_all(reg: Seq<DeviceStateView>, obs: Seq<DeviceView>, now: i64) -> (
    Seq<DeviceStateView>,
    Seq<EventView>,
)
    decreases obs.len(),
{
    if obs.len() == 0 {
        (reg, Seq::<EventView>::empty())
    } else {
        let prev = observe_all(reg, obs.drop_last(), now);
        let step = observe_one(prev.0, obs.last(), now);
        (step.0, prev.1 + step.1)
    }
}

/// The window a device ends the cycle with: devices absent from this
/// round's observations receive a `false` sample.
pub open spec fn settle_history(st: DeviceStateView, obs: Seq<DeviceView>) -> Seq<bool> {
    if observed_has(obs, st.device.mac) {
        st.history
    } else {
        push_sample(st.history, false)
    }
}

/// One device's state at the end of the cycle: the settled window, and the
/// classifier's verdict on it as the new belief.
pub open spec fn settle_state(st: DeviceStateView, obs: Seq<DeviceView>) -> DeviceStateView {
    let h = settle_history(st, obs);
    DeviceStateView {
        device: st.device,
        last_seen: st.last_seen,
        is_connected: spec_classify(h, st.is_connected),
        history: h,
    }
}

/// The notification one device contributes: a single event exactly when its
/// belief flips, nothing otherwise.
pub open spec fn settle_event(st: DeviceStateView, obs: Seq<DeviceView>) -> Seq<EventView> {
    let c = spec_classify(settle_history(st, obs), st.is_connected);
    if c != st.is_connected {
        seq![EventView { device: st.device, became_online: c }]
    } else {
        Seq::<EventView>::empty()
    }
}

/// All devices settled.
pub open spec fn settle_all(reg: Seq<DeviceStateView>, obs: Seq<DeviceView>) -> Seq<
    DeviceStateView,
> {
    reg.map_values(|st: DeviceStateView| settle_state(st, obs))
}

/// The flip events of all devices, in registry order.
pub open spec fn settle_events(reg: Seq<DeviceStateView>, obs: Seq<DeviceView>) -> Seq<EventView>
    decreases reg.len(),
{
    if reg.len() == 0 {
        Seq::<EventView>::empty()
    } else {
        settle_events(reg.drop_last(), obs) + settle_event(reg.last(), obs)
    }
}

/// One full reconciliation cycle: record every observation (announcing new
/// devices), then give every absent device a `false` sample, reclassify
/// every device, and emit one event per belief flip.
pub open spec fn spec_reconcile(reg: Seq<DeviceStateView>, obs: Seq<DeviceView>, now: i64) -> (
    Seq<DeviceStateView>,
    Seq<EventView>,
) {
    let o = observe_all(reg, obs, now);
    (settle_all(o.0, obs), o.1 + settle_events(o.0, obs))
}

/// The state stored for a device during initial seeding: online belief and
/// a still-empty window; no sample is recorded and nothing is announced.
pub open spec fn seed_state(d: DeviceView, now: i64) -> DeviceStateView {
    DeviceStateView { device: d, last_seen: now, is_connected: true, history: Seq::<bool>::empty() }
}

/// Effect of seeding one device: a later observation of the same identifier
/// replaces the earlier one wholesale.
pub open spec fn seed_one(reg: Seq<DeviceStateView>, d: DeviceView, now: i64) -> Seq<
    DeviceStateView,
> {
    if reg_has(reg, d.mac) {
        reg.update(reg_index_of(reg, d.mac), seed_state(d, now))
    } else {
        reg.push(seed_state(d, now))
    }
}

/// Effect of seeding a whole observation sequence, in order.
pub open spec fn seed_all(reg: Seq<DeviceStateView>, obs: Seq<DeviceView>, now: i64) -> Seq<
    DeviceStateView,
>
    decreases obs.len(),
{
    if obs.len() == 0 {
        reg
    } else {
        seed_one(seed_all(reg, obs.drop_last(), now), obs.last(), now)
    }
}

/// A pushed sample never leaves the window over capacity.
pub proof fn lemma_push_sample_len(h: Seq<bool>, s: bool)
    requires
        h.len() <= HISTORY_SIZE,
    ensures
        push_sample(h, s).len() <= HISTORY_SIZE,
        push_sample(h, s).len() == if h.len() < HISTORY_SIZE {
            h.len() as int + 1
        } else {
            HISTORY_SIZE as int
        },
{
}

/// Recording one observation keeps the registry well formed, changes no
/// other device, and extends the identifier set by exactly the observed
/// identifier.
pub proof fn lemma_observe_one_wf(reg: Seq<DeviceStateView>, d: DeviceView, now: i64)
    requires
        reg_wf(reg),
    ensures
        reg_wf(observe_one(reg, d, now).0),
        observe_one(reg, d, now).0.len() >= reg.len(),
        forall|m: Seq<char>|
            #[trigger] reg_has(observe_one(reg, d, now).0, m) <==> reg_has(reg, m) || m == d.mac,
{
    let out = observe_one(reg, d, now).0;
    if reg_has(reg, d.mac) {
        let i = reg_index_of(reg, d.mac);
        assert(0 <= i < reg.len() && reg[i].device.mac == d.mac);
        lemma_push_sample_len(reg[i].history, true);
        assert forall|m: Seq<char>| #[trigger] reg_has(out, m) implies reg_has(reg, m) || m
            == d.mac by {
            let j = choose|j: int| 0 <= j < out.len() && out[j].device.mac == m;
            if j == i {
                assert(reg[i].device.mac == m || m == d.mac);
            } else {
                assert(reg[j].device.mac == m);
            }
        }
        assert forall|m: Seq<char>| reg_has(reg, m) || m == d.mac implies #[trigger] reg_has(
            out,
            m,
        ) by {
            if m == d.mac {
                assert(out[i].device.mac == m);
            } else {
                let j = choose|j: int| 0 <= j < reg.len() && reg[j].device.mac == m;
                assert(out[j].device.mac == m);
            }
        }
    } else {
        assert forall|m: Seq<char>| #[trigger] reg_has(out, m) implies reg_has(reg, m) || m
            == d.mac by {
            let j = choose|j: int| 0 <= j < out.len() && out[j].device.mac == m;
            if j < reg.len() {
                assert(reg[j].device.mac == m);
            }
        }
        assert forall|m: Seq<char>| reg_has(reg, m) || m == d.mac implies #[trigger] reg_has(
            out,
            m,
        ) by {
            if m == d.mac {
                assert(out[reg.len() as int].device.mac == m);
            } else {
                let j = choose|j: int| 0 <= j < reg.len() && reg[j].device.mac == m;
                assert(out[j].device.mac == m);
            }
        }
    }
}

/// Seeding one device keeps the registry well formed and extends the
/// identifier set by exactly the seeded identifier.
pub proof fn lemma_seed_one_wf(reg: Seq<DeviceStateView>, d: DeviceView, now: i64)
    requires
        reg_wf(reg),
    ensures
        reg_wf(seed_one(reg, d, now)),
        seed_one(reg, d, now).len() >= reg.len(),
        forall|m: Seq<char>|
            #[trigger] reg_has(seed_one(reg, d, now), m) <==> reg_has(reg, m) || m == d.mac,
{
    let out = seed_one(reg, d, now);
    if reg_has(reg, d.mac) {
        let i = reg_index_of(reg, d.mac);
        assert(0 <= i < reg.len() && reg[i].device.mac == d.mac);
        assert forall|m: Seq<char>| #[trigger] reg_has(out, m) implies reg_has(reg, m) || m
            == d.mac by {
            let j = choose|j: int| 0 <= j < out.len() && out[j].device.mac == m;
            if j != i {
                assert(reg[j].device.mac == m);
            }
        }
        assert forall|m: Seq<char>| reg_has(reg, m) || m == d.mac implies #[trigger] reg_has(
            out,
            m,
        ) by {
            if m == d.mac {
                assert(out[i].device.mac == m);
            } else {
                let j = choose|j: int| 0 <= j < reg.len() && reg[j].device.mac == m;
                assert(out[j].device.mac == m);
            }
        }
    } else {
        assert forall|m: Seq<char>| #[trigger] reg_has(out, m) implies reg_has(reg, m) || m
            == d.mac by {
            let j = choose|j: int| 0 <= j < out.len() && out[j].device.mac == m;
            if j < reg.len() {
                assert(reg[j].device.mac == m);
            }
        }
        assert forall|m: Seq<char>| reg_has(reg, m) || m == d.mac implies #[trigger] reg_has(
            out,
            m,
        ) by {
            if m == d.mac {
                assert(out[reg.len() as int].device.mac == m);
            } else {
                let j = choose|j: int| 0 <= j < reg.len() && reg[j].device.mac == m;
                assert(out[j].device.mac == m);
            }
        }
    }
}

/// Splitting one more device off the front of the seeding fold.
pub proof fn lemma_seed_all_step(reg: Seq<DeviceStateView>, obs: Seq<DeviceView>, k: int, now: i64)
    requires
        0 <= k < obs.len(),
    ensures
        seed_all(reg, obs.take(k + 1), now) == seed_one(seed_all(reg, obs.take(k), now), obs[k], now),
{
    assert(obs.take(k + 1).drop_last() =~= obs.take(k));
    assert(obs.take(k + 1).last() == obs[k]);
}

/// Recording a whole observation sequence keeps the registry well formed
/// and adds exactly the observed identifiers.
pub proof fn lemma_observe_all_wf(reg: Seq<DeviceStateView>, obs: Seq<DeviceView>, now: i64)
    requires
        reg_wf(reg),
    ensures
        reg_wf(observe_all(reg, obs, now).0),
        observe_all(reg, obs, now).0.len() >= reg.len(),
        forall|m: Seq<char>|
            #[trigger] reg_has(observe_all(reg, obs, now).0, m) <==> reg_has(reg, m)
                || observed_has(obs, m),
    decreases obs.len(),
{
    if obs.len() == 0 {
        assert(forall|m: Seq<char>| !observed_has(obs, m));
    } else {
        let prefix = obs.drop_last();
        lemma_observe_all_wf(reg, prefix, now);
        let mid = observe_all(reg, prefix, now).0;
        lemma_observe_one_wf(mid, obs.last(), now);
        assert forall|m: Seq<char>| observed_has(obs, m) implies observed_has(prefix, m) || m
            == obs.last().mac by {
            let j = choose|j: int| 0 <= j < obs.len() && obs[j].mac == m;
            if j < obs.len() - 1 {
                assert(prefix[j].mac == m);
            }
        }
        assert forall|m: Seq<char>| observed_has(prefix, m) implies observed_has(obs, m) by {
            let j = choose|j: int| 0 <= j < prefix.len() && prefix[j].mac == m;
            assert(obs[j].mac == m);
        }
        assert(observed_has(obs, obs.last().mac)) by {
            assert(obs[obs.len() - 1].mac == obs.last().mac);
        }
    }
}

/// Splitting one more observation off the front of a prefix fold.
pub proof fn lemma_observe_all_step(
    reg: Seq<DeviceStateView>,
    obs: Seq<DeviceView>,
    k: int,
    now: i64,
)
    requires
        0 <= k < obs.len(),
    ensures
        observe_all(reg, obs.take(k + 1), now).0 == observe_one(
            observe_all(reg, obs.take(k), now).0,
            obs[k],
            now,
        ).0,
        observe_all(reg, obs.take(k + 1), now).1 == observe_all(reg, obs.take(k), now).1
            + observe_one(observe_all(reg, obs.take(k), now).0, obs[k], now).1,
{
    assert(obs.take(k + 1).drop_last() =~= obs.take(k));
    assert(obs.take(k + 1).last() == obs[k]);
}

/// Splitting one more device off the front of the settle-events fold.
pub proof fn lemma_settle_events_step(reg: Seq<DeviceStateView>, obs: Seq<DeviceView>, j: int)
    requires
        0 <= j < reg.len(),
    ensures
        settle_events(reg.take(j + 1), obs) == settle_events(reg.take(j), obs) + settle_event(
            reg[j],
            obs,
        ),
{
    assert(reg.take(j + 1).drop_last() =~= reg.take(j));
    assert(reg.take(j + 1).last() == reg[j]);
}

/// Settling keeps the registry well formed: identifiers are untouched and
/// windows stay within capacity.
pub proof fn lemma_settle_all_wf(reg: Seq<DeviceStateView>, obs: Seq<DeviceView>)
    requires
        reg_wf(reg),
    ensures
        reg_wf(settle_all(reg, obs)),
        settle_all(reg, obs).len() == reg.len(),
        forall|i: int|
            0 <= i < reg.len() ==> (#[trigger] settle_all(reg, obs)[i]).device == reg[i].device,
{
    assert forall|i: int| 0 <= i < reg.len() implies (#[trigger] settle_all(reg, obs)[i]).history.len()
        <= HISTORY_SIZE by {
        lemma_push_sample_len(reg[i].history, false);
    }
}

/// The per-device states, keyed by the device identifier. Identifiers are
/// unique; devices are never evicted.
pub struct Registry {
    states: Vec<DeviceState>,
}

impl View for Registry {
    type V = Seq<DeviceStateView>;

    closed spec fn view(&self) -> Seq<DeviceStateView> {
        state_views(self.states@)
    }
}

impl Registry {
    /// Identifiers unique, all windows within capacity.
    pub open spec fn wf(&self) -> bool {
        reg_wf(self@)
    }

    /// An empty registry.
    pub fn new() -> (r: Registry)
        ensures
            r@ == Seq::<DeviceStateView>::empty(),
            r.wf(),
    {
        let r = Registry { states: Vec::new() };
        proof {
            assert(r@ =~= Seq::<DeviceStateView>::empty());
        }
        r
    }

    /// Number of devices ever seen.
    pub fn len(&self) -> (n: usize)
        ensures
            n == self@.len(),
    {
        self.states.len()
    }

    /// Read access to the stored states, in registry order.
    pub fn states(&self) -> (r: &Vec<DeviceState>)
        ensures
            state_views(r@) == self@,
    {
        &self.states
    }

    /// The position of the device with the given identifier, if any.
    fn find_index(&self, mac: &MacAddr) -> (r: Option<usize>)
        ensures
            match r {
                Some(i) => i < self@.len() && self@[i as int].device.mac == mac@,
                None => !reg_has(self@, mac@),
            },
    {
        let mut j: usize = 0;
        while j < self.states.len()
            invariant
                j <= self@.len(),
                self@.len() == self.states@.len(),
                forall|i: int| 0 <= i < j ==> (#[trigger] self@[i]).device.mac != mac@,
            decreases self@.len() - j,
        {
            if self.states[j].device.mac.same_as(mac) {
                return Some(j);
            }
            j = j + 1;
        }
        None
    }

    /// Whether any device in this round's observations carries `mac`.
    fn observed_contains(observed: &Vec<Device>, mac: &MacAddr) -> (r: bool)
        ensures
            r == observed_has(device_views(observed@), mac@),
    {
        let mut k: usize = 0;
        while k < observed.len()
            invariant
                k <= observed@.len(),
                forall|i: int|
                    0 <= i < k ==> (#[trigger] device_views(observed@)[i]).mac != mac@,
            decreases observed@.len() - k,
        {
            if observed[k].mac.same_as(mac) {
                proof {
                    assert(device_views(observed@)[k as int].mac == mac@);
                }
                return true;
            }
            k = k + 1;
        }
        false
    }

    /// Seed the registry from an initial scan, without emitting events:
    /// every device of `devices` is stored with an online belief and an
    /// empty window, a later duplicate replacing an earlier one.
    pub fn init_state(&mut self, devices: Vec<Device>, now: i64)
        requires
            old(self).wf(),
        ensures
            final(self).wf(),
            final(self)@ == seed_all(old(self)@, device_views(devices@), now),
    {
        let ghost obs = device_views(devices@);
        let ghost reg0 = self@;
        let mut k: usize = 0;
        while k < devices.len()
            invariant
                k <= devices@.len(),
                obs == device_views(devices@),
                obs.len() == devices@.len(),
                reg_wf(self@),
                self@ == seed_all(reg0, obs.take(k as int), now),
            decreases devices@.len() - k,
        {
            proof {
                lemma_seed_all_step(reg0, obs, k as int, now);
            }
            let d = &devices[k];
            proof {
                assert(obs[k as int] == d@);
            }
            let st = DeviceState::new(d.clone(), now);
            let ghost before = self@;
            match self.find_index(&d.mac) {
                Some(i) => {
                    proof {
                        assert(reg_has(self@, d@.mac));
                        let j = reg_index_of(self@, d@.mac);
                        assert(0 <= j < self@.len() && self@[j].device.mac == d@.mac);
                        if j != i as int {
                            assert(false);
                        }
                    }
                    self.states.remove(i);
                    self.states.insert(i, st);
                    proof {
                        assert(st@ == seed_state(d@, now));
                        assert(self@ =~= before.update(i as int, seed_state(d@, now)));
                        lemma_seed_one_wf(before, d@, now);
                    }
                },
                None => {
                    self.states.push(st);
                    proof {
                        assert(st@ == seed_state(d@, now));
                        assert(self@ =~= before.push(seed_state(d@, now)));
                        lemma_seed_one_wf(before, d@, now);
                    }
                },
            }
            k = k + 1;
        }
        proof {
            assert(obs.take(devices@.len() as int) =~= obs);
        }
    }

    /// One reconciliation cycle stamped with the host's current wall-clock
    /// time; apart from the `last_seen` timestamps the outcome is that of
    /// `reconcile` itself.
    pub fn reconcile_current(&mut self, observed: &Vec<Device>) -> (events: Vec<NotificationEvent>)
        requires
            old(self).wf(),
        ensures
            final(self).wf(),
            exists|t: i64|
                {
                    &&& final(self)@ == #[trigger] spec_reconcile(
                        old(self)@,
                        device_views(observed@),
                        t,
                    ).0
                    &&& event_views(events@) == spec_reconcile(
                        old(self)@,
                        device_views(observed@),
                        t,
                    ).1
                },
    {
        let now = current_timestamp();
        let events = self.reconcile(observed, now);
        proof {
            assert(self@ == spec_reconcile(old(self)@, device_views(observed@), now).0);
            assert(event_views(events@) == spec_reconcile(old(self)@, device_views(observed@), now).1);
        }
        events
    }

    /// One reconciliation cycle against this round's observations: record
    /// each observed device (announcing brand-new ones immediately), give
    /// every absent device a `false` sample, reclassify every window, and
    /// return one event per belief flip, in registry order.
    pub fn reconcile(&mut self, observed: &Vec<Device>, now: i64) -> (events: Vec<
        NotificationEvent,
    >)
        requires
            old(self).wf(),
        ensures
            final(self).wf(),
            final(self)@ == spec_reconcile(old(self)@, device_views(observed@), now).0,
            event_views(events@) == spec_reconcile(old(self)@, device_views(observed@), now).1,
    {
        let ghost obs = device_views(observed@);
        let ghost reg0 = self@;
        let mut events: Vec<NotificationEvent> = Vec::new();

        let mut k: usize = 0;
        while k < observed.len()
            invariant
                k <= observed@.len(),
                obs == device_views(observed@),
                obs.len() == observed@.len(),
                reg_wf(reg0),
                reg_wf(self@),
                self@ == observe_all(reg0, obs.take(k as int), now).0,
                event_views(events@) == observe_all(reg0, obs.take(k as int), now).1,
            decreases observed@.len() - k,
        {
            proof {
                lemma_observe_all_step(reg0, obs, k as int, now);
                lemma_observe_all_wf(reg0, obs.take(k as int), now);
            }
            let d = &observed[k];
            proof {
                assert(obs[k as int] == d@);
            }
            match self.find_index(&d.mac) {
                Some(i) => {
                    proof {
                        assert(reg_has(self@, d@.mac));
                        let j = reg_index_of(self@, d@.mac);
                        assert(0 <= j < self@.len() && self@[j].device.mac == d@.mac);
                        if j != i as int {
                            assert(false);
                        }
                    }
                    let ghost before = self@;
                    let mut st = self.states.remove(i);
                    st.device = d.clone();
                    st.last_seen = now;
                    st.ping_history.update(true);
                    self.states.insert(i, st);
                    proof {
                        assert(self@ =~= before.update(
                            i as int,
                            observe_one(before, d@, now).0[i as int],
                        ));
                        assert(self@ =~= observe_one(before, d@, now).0);
                        assert(event_views(events@) + Seq::<EventView>::empty() =~= event_views(
                            events@,
                        ));
                    }
                },
                None => {
                    let ghost before = self@;
                    let mut st = DeviceState::new(d.clone(), now);
                    st.ping_history.update(true);
                    self.states.push(st);
                    events.push(NotificationEvent { device: d.clone(), became_online: true });
                    proof {
                        assert(seq![true] + Seq::<bool>::empty() =~= seq![true]);
                        assert(st@ == fresh_state(d@, now));
                        assert(self@ =~= before.push(fresh_state(d@, now)));
                        assert(self@ =~= observe_one(before, d@, now).0);
                        assert(event_views(events@) =~= observe_all(
                            reg0,
                            obs.take(k as int),
                            now,
                        ).1 + observe_one(before, d@, now).1);
                    }
                },
            }
            k = k + 1;
        }
        proof {
            assert(obs.take(observed@.len() as int) =~= obs);
        }
        let ghost reg1 = self@;
        let ghost evs1 = event_views(events@);
        proof {
            lemma_observe_all_wf(reg0, obs, now);
        }

        let mut j: usize = 0;
        let end = self.states.len();
        while j < end
            invariant
                j <= end,
                end == reg1.len(),
                obs == device_views(observed@),
                reg_wf(reg1),
                self@.len() == reg1.len(),
                forall|i: int| 0 <= i < j ==> #[trigger] self@[i] == settle_state(reg1[i], obs),
                forall|i: int| j <= i < reg1.len() ==> #[trigger] self@[i] == reg1[i],
                event_views(events@) == evs1 + settle_events(reg1.take(j as int), obs),
            decreases end - j,
        {
            let ghost st0 = reg1[j as int];
            let ghost pre = self@;
            proof {
                lemma_settle_events_step(reg1, obs, j as int);
                lemma_push_sample_len(st0.history, false);
                assert(pre[j as int] == reg1[j as int]);
                assert(st0.history.len() <= HISTORY_SIZE);
            }
            let observed_here = Self::observed_contains(observed, &self.states[j].device.mac);
            let mut st = self.states.remove(j);
            proof {
                assert(st@ == pre[j as int]);
                assert(st@ == st0);
            }
            if !observed_here {
                st.ping_history.update(false);
            }
            proof {
                assert(st@.history == settle_history(st0, obs));
            }
            let new_conn = st.ping_history.is_connected(st.is_connected);
            proof {
                assert(new_conn == spec_classify(settle_history(st0, obs), st0.is_connected));
            }
            if new_conn != st.is_connected {
                st.is_connected = new_conn;
                events.push(NotificationEvent { device: st.device.clone(), became_online: new_conn });
                proof {
                    assert(event_views(events@) =~= evs1 + settle_events(reg1.take(j as int), obs)
                        + settle_event(st0, obs));
                    assert(evs1 + settle_events(reg1.take(j as int), obs) + settle_event(st0, obs)
                        =~= evs1 + settle_events(reg1.take(j as int + 1), obs));
                }
            } else {
                proof {
                    assert(event_views(events@) =~= evs1 + settle_events(
                        reg1.take(j as int + 1),
                        obs,
                    ));
                }
            }
            self.states.insert(j, st);
            proof {
                assert(st@ == settle_state(st0, obs));
                assert(self@ =~= pre.update(j as int, st@));
                assert forall|i: int| 0 <= i < j + 1 implies #[trigger] self@[i] == settle_state(
                    reg1[i],
                    obs,
                ) by {
                    if i < j {
                        assert(pre[i] == settle_state(reg1[i], obs));
                    }
                }
                assert forall|i: int| j + 1 <= i < reg1.len() implies #[trigger] self@[i]
                    == reg1[i] by {
                    assert(pre[i] == reg1[i]);
                }
            }
            j = j + 1;
        }
        proof {
            assert(reg1.take(reg1.len() as int) =~= reg1);
            assert(self@ =~= settle_all(reg1, obs));
            lemma_settle_all_wf(reg1, obs);
            assert(event_views(events@) =~= spec_reconcile(reg0, obs, now).1);
        }
        events
    }
}

} // verus!
