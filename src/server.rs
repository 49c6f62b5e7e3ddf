use vstd::prelude::*;

use crate::actuator::{
    add_override_post, add_slot_post, remove_override_post, remove_slot_post, set_default_post,
    set_enabled_post, set_period_post, set_slot_state_post, active_default, state_fits, Actuator,
    ActuatorInfo, ActuatorModel, ActuatorState,
};
use crate::rpc::{Error, InvalArgError};
use crate::time::DateTime;
use crate::time_slot::{slots_view, TimePeriod, TimeSlot};

verus! {

/// The actuators of a server, reached by their index.
pub struct Server {
    actuators: Vec<Actuator>,
}

pub open spec fn unknown_actuator<T>() -> Result<T, Error> {
    Err(Error::InvalidArgument(InvalArgError::ActuatorId))
}

impl View for Server {
    type V = Seq<ActuatorModel>;

    closed spec fn view(&self) -> Seq<ActuatorModel> {
        self.actuators@.map_values(|a: Actuator| a@)
    }
}

impl Server {
    pub open spec fn wf(&self) -> bool {
        forall|i: int| 0 <= i < self@.len() ==> (#[trigger] self@[i]).wf()
    }

    /// Whether a configured actuator may be served: its type is valid and its default state fits.
    pub open spec fn config_ok(c: (ActuatorInfo, ActuatorState)) -> bool {
        c.0.spec_valid() && state_fits(c.0.actuator_type, c.1)
    }

    /// A server holding one actuator per configuration entry, in order; the index of the first
    /// entry that cannot be served where there is one.
    pub fn new(configs: Vec<(ActuatorInfo, ActuatorState)>) -> (r: Result<Server, usize>)
        ensures
            match r {
                Ok(s) => {
                    &&& s.wf()
                    &&& s@.len() == configs@.len()
                    &&& forall|i: int| 0 <= i < configs@.len() ==> Self::config_ok(#[trigger] configs@[i])
                    &&& forall|i: int|
                        0 <= i < configs@.len() ==> {
                            let m = #[trigger] s@[i];
                            &&& m.info == configs@[i].0
                            &&& m.default_state == configs@[i].1
                            &&& m.timeslots.len() == 0
                            &&& m.next_timeslot_id == 0
                            &&& m.next_override_id == 0
                            &&& m.active == active_default(configs@[i].1)
                        }
                },
                Err(k) => {
                    &&& k < configs@.len()
                    &&& !Self::config_ok(configs@[k as int])
                    &&& forall|i: int| 0 <= i < k ==> Self::config_ok(#[trigger] configs@[i])
                },
            },
    {
        let ghost all = configs@;
        let n = configs.len();
        let mut rest = configs;
        let mut actuators: Vec<Actuator> = Vec::new();
        let mut k: usize = 0;
        while rest.len() > 0
            invariant
                k + rest@.len() == all.len(),
                all.len() == n,
                all == configs@,
                rest@ == all.subrange(k as int, all.len() as int),
                actuators@.len() == k,
                forall|i: int| 0 <= i < k ==> Self::config_ok(#[trigger] all[i]),
                forall|i: int|
                    0 <= i < k ==> {
                        let m = (#[trigger] actuators@[i])@;
                        &&& m.wf()
                        &&& m.info == all[i].0
                        &&& m.default_state == all[i].1
                        &&& m.timeslots.len() == 0
                        &&& m.next_timeslot_id == 0
                        &&& m.next_override_id == 0
                        &&& m.active == active_default(all[i].1)
                    },
            decreases rest@.len(),
        {
            let (info, default_state) = rest.remove(0);
            assert(all[k as int] == (info, default_state));
            let actuator = Actuator::new(info, default_state);
            if !actuator.valid() {
                assert(!Self::config_ok(all[k as int]));
                return Err(k);
            }
            actuators.push(actuator);
            k = k + 1;
            assert(rest@ =~= all.subrange(k as int, all.len() as int));
        }
        let s = Server { actuators };
        assert forall|i: int| 0 <= i < s@.len() implies (#[trigger] s@[i]).wf() by {
            assert(s@[i] == s.actuators@[i]@);
        }
        assert forall|i: int| 0 <= i < all.len() implies {
            let m = #[trigger] s@[i];
            &&& m.info == all[i].0
            &&& m.default_state == all[i].1
            &&& m.timeslots.len() == 0
            &&& m.next_timeslot_id == 0
            &&& m.next_override_id == 0
            &&& m.active == active_default(all[i].1)
        } by {
            assert(s@[i] == s.actuators@[i]@);
        }
        Ok(s)
    }

    pub fn list_actuators(&self) -> (r: Vec<ActuatorInfo>)
        ensures
            r@.len() == self@.len(),
            forall|i: int|
                0 <= i < r@.len() ==> (#[trigger] r@[i]).actuator_type == self@[i].info.actuator_type
                    && r@[i].name@ == self@[i].info.name@,
    {
        let mut out: Vec<ActuatorInfo> = Vec::new();
        let mut i: usize = 0;
        while i < self.actuators.len()
            invariant
                i <= self.actuators@.len(),
                out@.len() == i,
                forall|j: int|
                    0 <= j < i ==> (#[trigger] out@[j]).actuator_type == self@[j].info.actuator_type
                        && out@[j].name@ == self@[j].info.name@,
            decreases self.actuators@.len() - i,
        {
            let info = self.actuators[i].info();
            out.push(ActuatorInfo { name: info.name.clone(), actuator_type: info.actuator_type });
            i = i + 1;
        }
        out
    }

    /// Copies of the slots of an actuator, in the order of their IDs.
    pub fn list_timeslots(&self, actuator_id: u32) -> (r: Result<Vec<(u32, TimeSlot)>, Error>)
        ensures
            actuator_id >= self@.len() ==> r == unknown_actuator::<Vec<(u32, TimeSlot)>>(),
            actuator_id < self@.len() ==> (r matches Ok(v) && slots_view(v@) == self@[actuator_id as int].timeslots),
    {
        if actuator_id as usize >= self.actuators.len() {
            return Err(Error::InvalidArgument(InvalArgError::ActuatorId));
        }
        let src = self.actuators[actuator_id as usize].timeslots();
        let mut out: Vec<(u32, TimeSlot)> = Vec::new();
        let mut i: usize = 0;
        while i < src.len()
            invariant
                i <= src@.len(),
                slots_view(out@) =~= slots_view(src@).subrange(0, i as int),
            decreases src@.len() - i,
        {
            let e = &src[i];
            let d = e.1.duplicate();
            let ghost prev = out@;
            out.push((e.0, d));
            assert(slots_view(out@) =~= slots_view(prev).push((src@[i as int].0, src@[i as int].1@)));
            i = i + 1;
            assert(slots_view(out@) =~= slots_view(src@).subrange(0, i as int));
        }
        assert(slots_view(src@).subrange(0, src@.len() as int) =~= slots_view(src@));
        Ok(out)
    }

    pub fn get_default_state(&self, actuator_id: u32) -> (r: Result<ActuatorState, Error>)
        ensures
            actuator_id >= self@.len() ==> r == unknown_actuator::<ActuatorState>(),
            actuator_id < self@.len() ==> r == Ok::<ActuatorState, Error>(self@[actuator_id as int].default_state),
    {
        if actuator_id as usize >= self.actuators.len() {
            return Err(Error::InvalidArgument(InvalArgError::ActuatorId));
        }
        Ok(*self.actuators[actuator_id as usize].default_state())
    }

    /// Checks that a state can be pushed directly to the output of an actuator.
    pub fn set_state(&self, actuator_id: u32, state: ActuatorState) -> (r: Result<(), Error>)
        ensures
            actuator_id >= self@.len() ==> r == unknown_actuator::<()>(),
            actuator_id < self@.len() ==> r == if self@[actuator_id as int].fits(state) {
                Ok::<(), Error>(())
            } else {
                Err(Error::InvalidArgument(InvalArgError::ActuatorState))
            },
    {
        if actuator_id as usize >= self.actuators.len() {
            return Err(Error::InvalidArgument(InvalArgError::ActuatorId));
        }
        self.actuators[actuator_id as usize].set_state(state)
    }

    pub fn set_default_state(&mut self, actuator_id: u32, default_state: ActuatorState) -> (r: Result<(), Error>)
        requires
            old(self).wf(),
        ensures
            final(self).wf(),
            actuator_id >= old(self)@.len() ==> r == unknown_actuator::<()>() && final(self)@ == old(self)@,
            actuator_id < old(self)@.len() ==> set_default_post(old(self)@[actuator_id as int], final(self)@[actuator_id as int], default_state, r)
                && final(self)@ == old(self)@.update(actuator_id as int, final(self)@[actuator_id as int]),
    {
        if actuator_id as usize >= self.actuators.len() {
            return Err(Error::InvalidArgument(InvalArgError::ActuatorId));
        }
        let i = actuator_id as usize;
        proof {
            assert(self@[i as int] == self.actuators@[i as int]@);
        }
        let ghost before = self@;
        let r = self.actuators[i].set_default_state(default_state);
        proof {
            self.lemma_updated(before, i as int);
        }
        r
    }

    pub fn add_time_slot(&mut self, actuator_id: u32, time_period: TimePeriod, actuator_state: ActuatorState, enabled: bool, now: DateTime) -> (r: Result<u32, Error>)
        requires
            old(self).wf(),
            actuator_id < old(self)@.len() ==> old(self)@[actuator_id as int].next_timeslot_id < u32::MAX,
        ensures
            final(self).wf(),
            actuator_id >= old(self)@.len() ==> r == unknown_actuator::<u32>() && final(self)@ == old(self)@,
            actuator_id < old(self)@.len() ==> add_slot_post(old(self)@[actuator_id as int], final(self)@[actuator_id as int], time_period, actuator_state, enabled, now, r)
                && final(self)@ == old(self)@.update(actuator_id as int, final(self)@[actuator_id as int]),
    {
        if actuator_id as usize >= self.actuators.len() {
            return Err(Error::InvalidArgument(InvalArgError::ActuatorId));
        }
        let i = actuator_id as usize;
        proof {
            assert(self@[i as int] == self.actuators@[i as int]@);
        }
        let ghost before = self@;
        let r = self.actuators[i].add_time_slot(time_period, actuator_state, enabled, now);
        proof {
            self.lemma_updated(before, i as int);
        }
        r
    }

    pub fn remove_time_slot(&mut self, actuator_id: u32, time_slot_id: u32, now: DateTime) -> (r: Result<(), Error>)
        requires
            old(self).wf(),
        ensures
            final(self).wf(),
            actuator_id >= old(self)@.len() ==> r == unknown_actuator::<()>() && final(self)@ == old(self)@,
            actuator_id < old(self)@.len() ==> remove_slot_post(old(self)@[actuator_id as int], final(self)@[actuator_id as int], time_slot_id, now, r)
                && final(self)@ == old(self)@.update(actuator_id as int, final(self)@[actuator_id as int]),
    {
        if actuator_id as usize >= self.actuators.len() {
            return Err(Error::InvalidArgument(InvalArgError::ActuatorId));
        }
        let i = actuator_id as usize;
        proof {
            assert(self@[i as int] == self.actuators@[i as int]@);
        }
        let ghost before = self@;
        let r = self.actuators[i].remove_time_slot(time_slot_id, now);
        proof {
            self.lemma_updated(before, i as int);
        }
        r
    }

    pub fn time_slot_set_time_period(&mut self, actuator_id: u32, time_slot_id: u32, time_period: TimePeriod, now: DateTime) -> (r: Result<(), Error>)
        requires
            old(self).wf(),
        ensures
            final(self).wf(),
            actuator_id >= old(self)@.len() ==> r == unknown_actuator::<()>() && final(self)@ == old(self)@,
            actuator_id < old(self)@.len() ==> set_period_post(old(self)@[actuator_id as int], final(self)@[actuator_id as int], time_slot_id, time_period, now, r)
                && final(self)@ == old(self)@.update(actuator_id as int, final(self)@[actuator_id as int]),
    {
        if actuator_id as usize >= self.actuators.len() {
            return Err(Error::InvalidArgument(InvalArgError::ActuatorId));
        }
        let i = actuator_id as usize;
        proof {
            assert(self@[i as int] == self.actuators@[i as int]@);
        }
        let ghost before = self@;
        let r = self.actuators[i].time_slot_set_time_period(time_slot_id, time_period, now);
        proof {
            self.lemma_updated(before, i as int);
        }
        r
    }

    pub fn time_slot_set_enabled(&mut self, actuator_id: u32, time_slot_id: u32, enabled: bool, now: DateTime) -> (r: Result<(), Error>)
        requires
            old(self).wf(),
        ensures
            final(self).wf(),
            actuator_id >= old(self)@.len() ==> r == unknown_actuator::<()>() && final(self)@ == old(self)@,
            actuator_id < old(self)@.len() ==> set_enabled_post(old(self)@[actuator_id as int], final(self)@[actuator_id as int], time_slot_id, enabled, now, r)
                && final(self)@ == old(self)@.update(actuator_id as int, final(self)@[actuator_id as int]),
    {
        if actuator_id as usize >= self.actuators.len() {
            return Err(Error::InvalidArgument(InvalArgError::ActuatorId));
        }
        let i = actuator_id as usize;
        proof {
            assert(self@[i as int] == self.actuators@[i as int]@);
        }
        let ghost before = self@;
        let r = self.actuators[i].time_slot_set_enabled(time_slot_id, enabled, now);
        proof {
            self.lemma_updated(before, i as int);
        }
        r
    }

    pub fn time_slot_set_actuator_state(&mut self, actuator_id: u32, time_slot_id: u32, actuator_state: ActuatorState) -> (r: Result<(), Error>)
        requires
            old(self).wf(),
        ensures
            final(self).wf(),
            actuator_id >= old(self)@.len() ==> r == unknown_actuator::<()>() && final(self)@ == old(self)@,
            actuator_id < old(self)@.len() ==> set_slot_state_post(old(self)@[actuator_id as int], final(self)@[actuator_id as int], time_slot_id, actuator_state, r)
                && final(self)@ == old(self)@.update(actuator_id as int, final(self)@[actuator_id as int]),
    {
        if actuator_id as usize >= self.actuators.len() {
            return Err(Error::InvalidArgument(InvalArgError::ActuatorId));
        }
        let i = actuator_id as usize;
        proof {
            assert(self@[i as int] == self.actuators@[i as int]@);
        }
        let ghost before = self@;
        let r = self.actuators[i].time_slot_set_actuator_state(time_slot_id, actuator_state);
        proof {
            self.lemma_updated(before, i as int);
        }
        r
    }

    pub fn time_slot_add_time_override(&mut self, actuator_id: u32, time_slot_id: u32, time_period: TimePeriod, now: DateTime) -> (r: Result<u32, Error>)
        requires
            old(self).wf(),
            actuator_id < old(self)@.len() ==> old(self)@[actuator_id as int].next_override_id < u32::MAX,
        ensures
            final(self).wf(),
            actuator_id >= old(self)@.len() ==> r == unknown_actuator::<u32>() && final(self)@ == old(self)@,
            actuator_id < old(self)@.len() ==> add_override_post(old(self)@[actuator_id as int], final(self)@[actuator_id as int], time_slot_id, time_period, now, r)
                && final(self)@ == old(self)@.update(actuator_id as int, final(self)@[actuator_id as int]),
    {
        if actuator_id as usize >= self.actuators.len() {
            return Err(Error::InvalidArgument(InvalArgError::ActuatorId));
        }
        let i = actuator_id as usize;
        proof {
            assert(self@[i as int] == self.actuators@[i as int]@);
        }
        let ghost before = self@;
        let r = self.actuators[i].time_slot_add_time_override(time_slot_id, time_period, now);
        proof {
            self.lemma_updated(before, i as int);
        }
        r
    }

    pub fn time_slot_remove_time_override(&mut self, actuator_id: u32, time_slot_id: u32, time_override_id: u32, now: DateTime) -> (r: Result<(), Error>)
        requires
            old(self).wf(),
        ensures
            final(self).wf(),
            actuator_id >= old(self)@.len() ==> r == unknown_actuator::<()>() && final(self)@ == old(self)@,
            actuator_id < old(self)@.len() ==> remove_override_post(old(self)@[actuator_id as int], final(self)@[actuator_id as int], time_slot_id, time_override_id, now, r)
                && final(self)@ == old(self)@.update(actuator_id as int, final(self)@[actuator_id as int]),
    {
        if actuator_id as usize >= self.actuators.len() {
            return Err(Error::InvalidArgument(InvalArgError::ActuatorId));
        }
        let i = actuator_id as usize;
        proof {
            assert(self@[i as int] == self.actuators@[i as int]@);
        }
        let ghost before = self@;
        let r = self.actuators[i].time_slot_remove_time_override(time_slot_id, time_override_id, now);
        proof {
            self.lemma_updated(before, i as int);
        }
        r
    }

    /// Steps the rule in force of an actuator whose end time is reached (see `Actuator::advance`).
    pub fn advance(&mut self, actuator_id: u32, now: DateTime) -> (r: Option<DateTime>)
        requires
            old(self).wf(),
        ensures
            final(self).wf(),
            actuator_id >= old(self)@.len() ==> r is None && final(self)@ == old(self)@,
            actuator_id < old(self)@.len() ==> (r matches Some(t) && (final(self)@[actuator_id as int].active, t)
                == crate::actuator::spec_advance(old(self)@[actuator_id as int], now)
                && final(self)@ == old(self)@.update(
                actuator_id as int,
                old(self)@[actuator_id as int].with_active(final(self)@[actuator_id as int].active),
            )),
    {
        if actuator_id as usize >= self.actuators.len() {
            return None;
        }
        let i = actuator_id as usize;
        proof {
            assert(self@[i as int] == self.actuators@[i as int]@);
        }
        let ghost before = self@;
        let r = self.actuators[i].advance(now);
        proof {
            self.lemma_updated(before, i as int);
        }
        Some(r)
    }

    proof fn lemma_updated(&self, before: Seq<ActuatorModel>, i: int)
        requires
            0 <= i < before.len(),
            self.actuators@.len() == before.len(),
            forall|j: int| 0 <= j < before.len() && j != i ==> (#[trigger] self.actuators@[j])@ == before[j],
            forall|j: int| 0 <= j < before.len() && j != i ==> (#[trigger] before[j]).wf(),
            self.actuators@[i]@.wf(),
        ensures
            self@ == before.update(i, self@[i]),
            self.wf(),
    {
        assert(self@ =~= before.update(i, self@[i]));
    }

    pub fn len(&self) -> (r: usize)
        ensures
            r == self@.len(),
    {
        self.actuators.len()
    }

    /// The actuator of index `actuator_id`.
    pub fn actuator(&self, actuator_id: u32) -> (r: Option<&Actuator>)
        ensures
            match r {
                Some(a) => actuator_id < self@.len() && a@ == self@[actuator_id as int],
                None => actuator_id >= self@.len(),
            },
    {
        if (actuator_id as usize) < self.actuators.len() {
            Some(&self.actuators[actuator_id as usize])
        } else {
            None
        }
    }
}

} // verus!
