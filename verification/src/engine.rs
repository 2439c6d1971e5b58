//! The remapping engine: for each Note-On it looks the velocity up in the
//! rule table, records the translation in the correlation stack, and emits
//! the possibly remapped Note-On; for each Note-Off it pops the most recent
//! recorded translation for that (channel, pitch) and emits the matching
//! Note-Off; every other event passes through untouched. Exactly one output
//! event is produced per input event, in order.
//!
//! The rule table is handed in per call as a read-only snapshot: its values
//! are owned elsewhere (automation or a user interface) and may change
//! between events, so the engine never caches them.

use vstd::prelude::*;

use crate::note_stack::{
    MAX_CHANNELS, MAX_PITCHES, MAX_VOICES, NoteStack, cell_pop_rest, cell_pop_value, cell_push,
    valid_cell,
};
use crate::range_table::{RangeRule, RangeTable, table_match};

verus! {

/// One event of the stream. `Other` stands for every event kind the engine
/// does not act on; it is forwarded verbatim.
#[derive(Clone, Copy, PartialEq, Eq, Structural, Debug)]
pub enum Event {
    NoteOn { timing: u32, channel: u8, pitch: u8, velocity: u8 },
    NoteOff { timing: u32, channel: u8, pitch: u8, velocity: u8 },
    Other { timing: u32 },
}

/// The correlation state as a mathematical map: each valid (channel, pitch)
/// cell to the sequence of output pitches recorded for it, oldest first.
pub open spec fn stack_model(s: NoteStack) -> Map<(int, int), Seq<u8>> {
    Map::new(|k: (int, int)| valid_cell(k.0, k.1), |k: (int, int)| s.cell(k.0, k.1))
}

/// A push on the model: appends to the addressed cell (overwriting its tail
/// when full); out-of-range coordinates change nothing.
pub open spec fn model_push(
    m: Map<(int, int), Seq<u8>>,
    channel: int,
    pitch: int,
    new_pitch: u8,
) -> Map<(int, int), Seq<u8>> {
    if valid_cell(channel, pitch) {
        m.insert((channel, pitch), cell_push(m[(channel, pitch)], new_pitch))
    } else {
        m
    }
}

/// What a pop on the model returns: the most recently pushed pitch of the
/// addressed cell; `None` from an empty cell or out-of-range coordinates.
pub open spec fn model_pop_value(
    m: Map<(int, int), Seq<u8>>,
    channel: int,
    pitch: int,
) -> Option<u8> {
    if valid_cell(channel, pitch) {
        cell_pop_value(m[(channel, pitch)])
    } else {
        None
    }
}

/// What a pop leaves of the model: the addressed cell without its most
/// recently pushed pitch; out-of-range coordinates change nothing.
pub open spec fn model_pop_rest(
    m: Map<(int, int), Seq<u8>>,
    channel: int,
    pitch: int,
) -> Map<(int, int), Seq<u8>> {
    if valid_cell(channel, pitch) {
        m.insert((channel, pitch), cell_pop_rest(m[(channel, pitch)]))
    } else {
        m
    }
}

/// The engine's transition on one event: the correlation state after the
/// event, and the event emitted for it. A note event whose channel or pitch
/// lies outside the table's bounds is malformed: it passes through unchanged
/// and nothing is recorded for it.
pub open spec fn step(
    rules: Seq<RangeRule>,
    m: Map<(int, int), Seq<u8>>,
    event: Event,
) -> (Map<(int, int), Seq<u8>>, Event) {
    match event {
        Event::NoteOn { timing, channel, pitch, velocity } => {
            let out_pitch = if valid_cell(channel as int, pitch as int) {
                match table_match(rules, velocity) {
                    Some(np) => np,
                    None => pitch,
                }
            } else {
                pitch
            };
            (
                model_push(m, channel as int, pitch as int, out_pitch),
                Event::NoteOn { timing, channel, pitch: out_pitch, velocity },
            )
        },
        Event::NoteOff { timing, channel, pitch, velocity } => {
            let out_pitch = match model_pop_value(m, channel as int, pitch as int) {
                Some(np) => np,
                None => pitch,
            };
            (
                model_pop_rest(m, channel as int, pitch as int),
                Event::NoteOff { timing, channel, pitch: out_pitch, velocity },
            )
        },
        Event::Other { .. } => (m, event),
    }
}

/// The engine's transition on a whole event sequence: the final correlation
/// state, and the emitted sequence — one output per input, in order.
pub open spec fn run(
    rules: Seq<RangeRule>,
    m: Map<(int, int), Seq<u8>>,
    events: Seq<Event>,
) -> (Map<(int, int), Seq<u8>>, Seq<Event>)
    decreases events.len(),
{
    if events.len() == 0 {
        (m, Seq::empty())
    } else {
        let first = step(rules, m, events[0]);
        let rest = run(rules, first.0, events.drop_first());
        (rest.0, Seq::empty().push(first.1) + rest.1)
    }
}

/// The remapping engine. It owns only the note-correlation stack; the rule
/// table is passed in per call.
pub struct VelocityMapper {
    pub note_stack: NoteStack,
}

impl View for VelocityMapper {
    type V = Map<(int, int), Seq<u8>>;

    open spec fn view(&self) -> Map<(int, int), Seq<u8>> {
        stack_model(self.note_stack)
    }
}

impl Default for VelocityMapper {
    /// A fresh engine: nothing is recorded in any cell.
    fn default() -> (engine: VelocityMapper)
        ensures
            engine.wf(),
            forall|c: int, p: int|
                valid_cell(c, p) ==> (#[trigger] engine@[(c, p)]).len() == 0,
    {
        VelocityMapper { note_stack: NoteStack::new() }
    }
}

impl VelocityMapper {
    /// Well-formedness of the engine state.
    pub open spec fn wf(self) -> bool {
        self.note_stack.wf()
    }

    /// Processes one event against the rule snapshot `rules` and returns the
    /// event to emit for it, exactly as `step` says.
    pub fn process_event(&mut self, rules: &RangeTable, event: Event) -> (out: Event)
        requires
            old(self).wf(),
        ensures
            final(self).wf(),
            final(self)@ == step(rules@, old(self)@, event).0,
            out == step(rules@, old(self)@, event).1,
    {
        match event {
            Event::NoteOn { timing, channel, pitch, velocity } => {
                let new_pitch = if (channel as usize) < MAX_CHANNELS && (pitch as usize)
                    < MAX_PITCHES {
                    match rules.get_remapped_pitch(velocity) {
                        Some(np) => np,
                        None => pitch,
                    }
                } else {
                    pitch
                };
                self.note_stack.push_note_on(channel, pitch, new_pitch);
                proof {
                    assert(self@ =~= step(rules@, old(self)@, event).0);
                }
                Event::NoteOn { timing, channel, pitch: new_pitch, velocity }
            },
            Event::NoteOff { timing, channel, pitch, velocity } => {
                let popped = self.note_stack.pop_note_on(channel, pitch);
                let new_pitch = match popped {
                    Some(np) => np,
                    None => pitch,
                };
                proof {
                    assert(self@ =~= step(rules@, old(self)@, event).0);
                }
                Event::NoteOff { timing, channel, pitch: new_pitch, velocity }
            },
            Event::Other { .. } => event,
        }
    }

    /// Processes one block's events in order against the rule snapshot
    /// `rules`: emits exactly one output event per input event, as `run`
    /// says, and leaves the correlation state `run` says.
    pub fn process(&mut self, rules: &RangeTable, events: &Vec<Event>) -> (out: Vec<Event>)
        requires
            old(self).wf(),
        ensures
            final(self).wf(),
            final(self)@ == run(rules@, old(self)@, events@).0,
            out@ == run(rules@, old(self)@, events@).1,
            out@.len() == events@.len(),
    {
        let mut out: Vec<Event> = Vec::new();
        let n = events.len();
        let mut i: usize = 0;
        while i < n
            invariant
                self.wf(),
                i <= n,
                n == events@.len(),
                out@.len() == i,
                self@ == run(rules@, old(self)@, events@.take(i as int)).0,
                out@ == run(rules@, old(self)@, events@.take(i as int)).1,
            decreases n - i,
        {
            let e = events[i];
            let ghost taken = events@.take(i as int);
            let o = self.process_event(rules, e);
            out.push(o);
            proof {
                lemma_run_snoc(rules@, old(self)@, taken, e);
                assert(events@.take(i as int + 1) =~= taken.push(e));
            }
            i += 1;
        }
        proof {
            assert(events@.take(n as int) =~= events@);
        }
        out
    }
}

/// Running one more event equals running the prefix, then stepping once on
/// the resulting state; the output sequence grows by exactly that step's
/// output.
pub proof fn lemma_run_snoc(
    rules: Seq<RangeRule>,
    m: Map<(int, int), Seq<u8>>,
    events: Seq<Event>,
    event: Event,
)
    ensures
        run(rules, m, events.push(event)).0 == step(rules, run(rules, m, events).0, event).0,
        run(rules, m, events.push(event)).1 == run(rules, m, events).1.push(
            step(rules, run(rules, m, events).0, event).1,
        ),
    decreases events.len(),
{
    if events.len() == 0 {
        reveal_with_fuel(run, 3);
        assert(events.push(event)[0] == event);
        assert(events.push(event).drop_first() =~= Seq::<Event>::empty());
        assert(run(rules, m, events.push(event)).1 =~= run(rules, m, events).1.push(
            step(rules, run(rules, m, events).0, event).1,
        ));
    } else {
        assert(events.push(event)[0] == events[0]);
        assert(events.push(event).drop_first() =~= events.drop_first().push(event));
        lemma_run_snoc(rules, step(rules, m, events[0]).0, events.drop_first(), event);
        assert(run(rules, m, events.push(event)).1 =~= run(rules, m, events).1.push(
            step(rules, run(rules, m, events).0, event).1,
        ));
    }
}

/// Running a concatenation equals running the first part, then the second
/// part on the resulting state; the outputs concatenate in the same order.
pub proof fn lemma_run_concat(
    rules: Seq<RangeRule>,
    m: Map<(int, int), Seq<u8>>,
    s1: Seq<Event>,
    s2: Seq<Event>,
)
    ensures
        run(rules, m, s1 + s2).0 == run(rules, run(rules, m, s1).0, s2).0,
        run(rules, m, s1 + s2).1 == run(rules, m, s1).1 + run(rules, run(rules, m, s1).0, s2).1,
    decreases s1.len(),
{
    if s1.len() == 0 {
        assert(s1 + s2 =~= s2);
        assert(run(rules, m, s1).1 + run(rules, run(rules, m, s1).0, s2).1 =~= run(
            rules,
            m,
            s2,
        ).1);
    } else {
        assert((s1 + s2)[0] == s1[0]);
        assert((s1 + s2).drop_first() =~= s1.drop_first() + s2);
        lemma_run_concat(rules, step(rules, m, s1[0]).0, s1.drop_first(), s2);
        assert(run(rules, m, s1 + s2).1 =~= run(rules, m, s1).1 + run(
            rules,
            run(rules, m, s1).0,
            s2,
        ).1);
    }
}

/// A matching Note-On/Note-Off pair for one (channel, pitch) pair, as one
/// event sequence.
pub open spec fn pair_events(
    t_on: u32,
    t_off: u32,
    channel: u8,
    pitch: u8,
    v_on: u8,
    v_off: u8,
) -> Seq<Event> {
    seq![
        (Event::NoteOn { timing: t_on, channel, pitch, velocity: v_on }),
        (Event::NoteOff { timing: t_off, channel, pitch, velocity: v_off }),
    ]
}

/// One full push/pop cycle — a Note-On followed by its Note-Off on the same
/// (channel, pitch) pair — puts the correlation state back exactly where it
/// was, provided the pair's cell is not already full. (With the cell full
/// the Note-On overwrites the cell's newest entry, which is lost: the state
/// afterward is one entry short.)
pub proof fn lemma_note_cycle_restores(
    rules: Seq<RangeRule>,
    m: Map<(int, int), Seq<u8>>,
    t_on: u32,
    t_off: u32,
    channel: u8,
    pitch: u8,
    v_on: u8,
    v_off: u8,
)
    requires
        valid_cell(channel as int, pitch as int) ==> m.dom().contains(
            (channel as int, pitch as int),
        ) && m[(channel as int, pitch as int)].len() < MAX_VOICES as nat,
    ensures
        run(rules, m, pair_events(t_on, t_off, channel, pitch, v_on, v_off)).0 == m,
{
    let c = channel as int;
    let p = pitch as int;
    let es = pair_events(t_on, t_off, channel, pitch, v_on, v_off);
    reveal_with_fuel(run, 3);
    assert(es.drop_first()[0] == es[1]);
    assert(es.drop_first().drop_first().len() == 0);
    let m1 = step(rules, m, es[0]).0;
    let m2 = step(rules, m1, es[1]).0;
    if valid_cell(c, p) {
        let k = (c, p);
        assert(m1[k].drop_last() =~= m[k]);
        assert(m2 =~= m);
    }
    assert(run(rules, m, es).0 == m2);
}

/// Replay idempotence: replaying the same Note-On/Note-Off pair twice in
/// sequence — two full push/pop cycles — leaves the correlation state
/// identical to its state before the first replay, provided the pair's cell
/// is not already full.
pub proof fn lemma_replay_round_trip(
    rules: Seq<RangeRule>,
    m: Map<(int, int), Seq<u8>>,
    t_on: u32,
    t_off: u32,
    channel: u8,
    pitch: u8,
    v_on: u8,
    v_off: u8,
)
    requires
        valid_cell(channel as int, pitch as int) ==> m.dom().contains(
            (channel as int, pitch as int),
        ) && m[(channel as int, pitch as int)].len() < MAX_VOICES as nat,
    ensures
        run(
            rules,
            m,
            pair_events(t_on, t_off, channel, pitch, v_on, v_off) + pair_events(
                t_on,
                t_off,
                channel,
                pitch,
                v_on,
                v_off,
            ),
        ).0 == m,
{
    let pair = pair_events(t_on, t_off, channel, pitch, v_on, v_off);
    lemma_run_concat(rules, m, pair, pair);
    lemma_note_cycle_restores(rules, m, t_on, t_off, channel, pitch, v_on, v_off);
}

} // verus!
