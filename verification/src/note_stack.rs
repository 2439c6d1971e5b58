//! The note-correlation stack: a fixed-size table with one cell per
//! (channel, pitch) pair, each cell a small LIFO stack of the output pitches
//! of the Note-Ons that are still sounding for that pair. A Note-Off for the
//! pair pops the most recently recorded output pitch.
//!
//! The table is one flat, preallocated slot array indexed by a computed
//! offset, so processing never allocates. Within a cell, slots are filled
//! from the front with no gaps: the lowest-index empty slot is the next free
//! one, and the highest-index filled slot is the most recently pushed.

use vstd::prelude::*;

verus! {

/// Number of MIDI channels the table covers.
pub const MAX_CHANNELS: usize = 16;

/// Number of MIDI pitches the table covers.
pub const MAX_PITCHES: usize = 128;

/// Capacity of one cell: the most overlapping notes per (channel, pitch)
/// pair that can be correlated at once.
pub const MAX_VOICES: usize = 4;

/// Total number of slots in the flat table.
pub const SLOT_COUNT: usize = MAX_CHANNELS * MAX_PITCHES * MAX_VOICES;

/// Whether (channel, pitch) addresses a cell of the table.
pub open spec fn valid_cell(channel: int, pitch: int) -> bool {
    &&& 0 <= channel < MAX_CHANNELS as int
    &&& 0 <= pitch < MAX_PITCHES as int
}

/// Offset of voice slot `voice` of cell (channel, pitch) in the flat array.
pub open spec fn slot_index(channel: int, pitch: int, voice: int) -> int {
    (channel * (MAX_PITCHES as int) + pitch) * (MAX_VOICES as int) + voice
}

/// What a push leaves in a cell: the new pitch is appended when there is
/// room; a full cell has its last slot overwritten (newest wins at the tail).
pub open spec fn cell_push(s: Seq<u8>, new_pitch: u8) -> Seq<u8> {
    if s.len() < MAX_VOICES as nat {
        s.push(new_pitch)
    } else {
        s.update(MAX_VOICES as int - 1, new_pitch)
    }
}

/// What a pop returns from a cell: the most recently pushed pitch, or `None`
/// from an empty cell.
pub open spec fn cell_pop_value(s: Seq<u8>) -> Option<u8> {
    if s.len() == 0 {
        None
    } else {
        Some(s.last())
    }
}

/// What a pop leaves in a cell: the cell without its most recently pushed
/// pitch; an empty cell stays empty.
pub open spec fn cell_pop_rest(s: Seq<u8>) -> Seq<u8> {
    if s.len() == 0 {
        s
    } else {
        s.drop_last()
    }
}

/// The note-correlation table. `slots` always holds exactly `SLOT_COUNT`
/// entries; a `Some` entry is an occupied voice slot holding a remembered
/// output pitch.
pub struct NoteStack {
    pub slots: Vec<Option<u8>>,
}

impl NoteStack {
    /// The raw slot of cell (channel, pitch) at position `voice`.
    pub open spec fn slot(self, channel: int, pitch: int, voice: int) -> Option<u8> {
        self.slots@[slot_index(channel, pitch, voice)]
    }

    /// The lowest position at or after `voice` whose slot is empty, or
    /// `MAX_VOICES` when none is.
    pub open spec fn free_from(self, channel: int, pitch: int, voice: int) -> int
        decreases MAX_VOICES as int - voice,
    {
        if voice >= MAX_VOICES as int {
            MAX_VOICES as int
        } else if self.slot(channel, pitch, voice) is None {
            voice
        } else {
            self.free_from(channel, pitch, voice + 1)
        }
    }

    /// Occupancy of cell (channel, pitch): the position of its first free
    /// slot.
    pub open spec fn cell_len(self, channel: int, pitch: int) -> int {
        self.free_from(channel, pitch, 0)
    }

    /// The contents of cell (channel, pitch), oldest first: the pitches held
    /// by its occupied slots.
    pub open spec fn cell(self, channel: int, pitch: int) -> Seq<u8> {
        Seq::new(
            self.cell_len(channel, pitch) as nat,
            |voice: int| self.slot(channel, pitch, voice)->Some_0,
        )
    }

    /// Well-formedness: the flat array has its full size, and every cell is
    /// gap-free — at and above the first free slot, every slot is empty.
    pub open spec fn wf(self) -> bool {
        &&& self.slots@.len() == SLOT_COUNT
        &&& forall|c: int, p: int, v: int|
            valid_cell(c, p) && self.cell_len(c, p) <= v < MAX_VOICES as int
                ==> #[trigger] self.slot(c, p, v) is None
    }
}

/// Slot offsets of valid cells lie within the flat array.
pub proof fn lemma_slot_index_bounds(channel: int, pitch: int, voice: int)
    requires
        valid_cell(channel, pitch),
        0 <= voice < MAX_VOICES as int,
    ensures
        0 <= slot_index(channel, pitch, voice) < SLOT_COUNT as int,
{
}

/// Distinct (cell, voice) coordinates have distinct slot offsets.
pub proof fn lemma_slot_index_injective(
    c1: int, p1: int, v1: int,
    c2: int, p2: int, v2: int,
)
    requires
        valid_cell(c1, p1),
        valid_cell(c2, p2),
        0 <= v1 < MAX_VOICES as int,
        0 <= v2 < MAX_VOICES as int,
        slot_index(c1, p1, v1) == slot_index(c2, p2, v2),
    ensures
        c1 == c2 && p1 == p2 && v1 == v2,
{
}

/// The first free position lies between its starting point and
/// `MAX_VOICES`; every slot below it is occupied, and the slot at it (when
/// within the cell) is empty.
pub proof fn lemma_free_from_bounds(s: NoteStack, channel: int, pitch: int, i: int)
    requires
        0 <= i <= MAX_VOICES as int,
    ensures
        i <= s.free_from(channel, pitch, i) <= MAX_VOICES as int,
        forall|v: int|
            i <= v < s.free_from(channel, pitch, i) ==> #[trigger] s.slot(channel, pitch, v) is Some,
        s.free_from(channel, pitch, i) < MAX_VOICES as int
            ==> s.slot(channel, pitch, s.free_from(channel, pitch, i)) is None,
    decreases MAX_VOICES as int - i,
{
    if i < MAX_VOICES as int && s.slot(channel, pitch, i) is Some {
        lemma_free_from_bounds(s, channel, pitch, i + 1);
    }
}

/// Characterizes the first free position: if every slot from `i` up to `n`
/// is occupied and slot `n` (when within the cell) is empty, the first free
/// position from `i` is exactly `n`.
pub proof fn lemma_free_from_is(s: NoteStack, channel: int, pitch: int, i: int, n: int)
    requires
        0 <= i <= n <= MAX_VOICES as int,
        forall|v: int| i <= v < n ==> #[trigger] s.slot(channel, pitch, v) is Some,
        n < MAX_VOICES as int ==> s.slot(channel, pitch, n) is None,
    ensures
        s.free_from(channel, pitch, i) == n,
    decreases n - i,
{
    if i < n {
        lemma_free_from_is(s, channel, pitch, i + 1, n);
    }
}

/// Two tables that agree on every slot of a cell have the same contents in
/// that cell.
pub proof fn lemma_cell_agree(s1: NoteStack, s2: NoteStack, channel: int, pitch: int)
    requires
        forall|v: int|
            0 <= v < MAX_VOICES as int
                ==> #[trigger] s1.slot(channel, pitch, v) == s2.slot(channel, pitch, v),
    ensures
        s1.cell(channel, pitch) == s2.cell(channel, pitch),
        s1.cell_len(channel, pitch) == s2.cell_len(channel, pitch),
{
    lemma_free_from_agree(s1, s2, channel, pitch, 0);
    lemma_free_from_bounds(s1, channel, pitch, 0);
    assert(s1.cell(channel, pitch) =~= s2.cell(channel, pitch));
}

proof fn lemma_free_from_agree(s1: NoteStack, s2: NoteStack, channel: int, pitch: int, i: int)
    requires
        0 <= i <= MAX_VOICES as int,
        forall|v: int|
            0 <= v < MAX_VOICES as int
                ==> #[trigger] s1.slot(channel, pitch, v) == s2.slot(channel, pitch, v),
    ensures
        s1.free_from(channel, pitch, i) == s2.free_from(channel, pitch, i),
    decreases MAX_VOICES as int - i,
{
    if i < MAX_VOICES as int && s1.slot(channel, pitch, i) is Some {
        lemma_free_from_agree(s1, s2, channel, pitch, i + 1);
    }
}

/// A cell never holds more than `MAX_VOICES` pitches.
pub proof fn lemma_cell_occupancy(s: NoteStack, channel: int, pitch: int)
    ensures
        s.cell(channel, pitch).len() <= MAX_VOICES as nat,
{
    lemma_free_from_bounds(s, channel, pitch, 0);
}

/// Push then pop on an empty cell returns exactly the pushed pitch and
/// leaves the cell empty again.
pub proof fn lemma_push_pop_empty(s: Seq<u8>, new_pitch: u8)
    requires
        s.len() == 0,
    ensures
        cell_pop_value(cell_push(s, new_pitch)) == Some(new_pitch),
        cell_pop_rest(cell_push(s, new_pitch)) == s,
{
    assert(cell_pop_rest(cell_push(s, new_pitch)) =~= s);
}

/// LIFO order: pushing `a` then `b` into a cell with room for both, then
/// popping twice, yields `b` first, then `a`, and restores the cell. (With
/// `MAX_VOICES - 1` pitches already in the cell there is no room for both:
/// the second push then overwrites the first.)
pub proof fn lemma_lifo(s: Seq<u8>, a: u8, b: u8)
    requires
        s.len() + 2 <= MAX_VOICES as nat,
    ensures
        cell_pop_value(cell_push(cell_push(s, a), b)) == Some(b),
        cell_pop_value(cell_pop_rest(cell_push(cell_push(s, a), b))) == Some(a),
        cell_pop_rest(cell_pop_rest(cell_push(cell_push(s, a), b))) == s,
{
    let s2 = cell_push(cell_push(s, a), b);
    assert(cell_pop_rest(s2) =~= cell_push(s, a));
    assert(cell_pop_rest(cell_push(s, a)) =~= s);
}

/// Popping an empty cell reports no match and leaves the cell empty.
pub proof fn lemma_pop_empty(s: Seq<u8>)
    requires
        s.len() == 0,
    ensures
        cell_pop_value(s) is None,
        cell_pop_rest(s) == s,
{
}

/// Overflow stays bounded: a push never grows a cell beyond `MAX_VOICES`
/// pitches.
pub proof fn lemma_push_bounded(s: Seq<u8>, new_pitch: u8)
    requires
        s.len() <= MAX_VOICES as nat,
    ensures
        cell_push(s, new_pitch).len() <= MAX_VOICES as nat,
{
}

impl NoteStack {
    /// A fresh table: every slot of every cell is empty.
    pub fn new() -> (s: NoteStack)
        ensures
            s.wf(),
            forall|c: int, p: int| valid_cell(c, p) ==> #[trigger] s.cell(c, p).len() == 0,
    {
        let mut slots: Vec<Option<u8>> = Vec::new();
        let mut i: usize = 0;
        while i < SLOT_COUNT
            invariant
                slots@.len() == i,
                i <= SLOT_COUNT,
                forall|j: int| 0 <= j < i ==> slots@[j] is None,
            decreases SLOT_COUNT - i,
        {
            slots.push(None);
            i += 1;
        }
        let s = NoteStack { slots };
        proof {
            assert forall|c: int, p: int| valid_cell(c, p) implies s.cell_len(c, p) == 0 by {
                lemma_slot_index_bounds(c, p, 0);
                lemma_free_from_is(s, c, p, 0, 0);
            }
        }
        s
    }

    /// Position of the lowest-index empty slot of cell (channel, pitch), or
    /// `None` when the cell is full.
    pub fn next_free_index(&self, channel: u8, pitch: u8) -> (r: Option<usize>)
        requires
            self.wf(),
            valid_cell(channel as int, pitch as int),
        ensures
            match r {
                Some(i) => i == self.cell_len(channel as int, pitch as int) && i < MAX_VOICES,
                None => self.cell_len(channel as int, pitch as int) == MAX_VOICES as int,
            },
    {
        let base = (channel as usize * MAX_PITCHES + pitch as usize) * MAX_VOICES;
        let mut v: usize = 0;
        while v < MAX_VOICES
            invariant
                self.wf(),
                valid_cell(channel as int, pitch as int),
                base == slot_index(channel as int, pitch as int, 0),
                v <= MAX_VOICES,
                forall|u: int|
                    0 <= u < v ==> #[trigger] self.slot(channel as int, pitch as int, u) is Some,
            decreases MAX_VOICES - v,
        {
            proof {
                lemma_slot_index_bounds(channel as int, pitch as int, v as int);
            }
            if self.slots[base + v].is_none() {
                proof {
                    lemma_free_from_is(*self, channel as int, pitch as int, 0, v as int);
                }
                return Some(v);
            }
            v += 1;
        }
        proof {
            lemma_free_from_is(*self, channel as int, pitch as int, 0, MAX_VOICES as int);
        }
        None
    }

    /// Records that a Note-On on (channel, pitch) was translated to
    /// `new_pitch`: appends it to the cell, or overwrites the cell's last
    /// slot when the cell is full. Out-of-range coordinates are ignored.
    pub fn push_note_on(&mut self, channel: u8, pitch: u8, new_pitch: u8)
        requires
            old(self).wf(),
        ensures
            final(self).wf(),
            valid_cell(channel as int, pitch as int) ==> final(self).cell(
                channel as int,
                pitch as int,
            ) == cell_push(old(self).cell(channel as int, pitch as int), new_pitch),
            forall|c: int, p: int|
                valid_cell(c, p) && !(c == channel as int && p == pitch as int)
                    ==> #[trigger] final(self).cell(c, p) == old(self).cell(c, p),
    {
        if channel as usize >= MAX_CHANNELS || pitch as usize >= MAX_PITCHES {
            return;
        }
        let ghost c = channel as int;
        let ghost p = pitch as int;
        let ghost l = self.cell_len(c, p);
        let idx = match self.next_free_index(channel, pitch) {
            Some(i) => i,
            None => MAX_VOICES - 1,
        };
        proof {
            lemma_free_from_bounds(*self, c, p, 0);
            lemma_slot_index_bounds(c, p, idx as int);
        }
        let base = (channel as usize * MAX_PITCHES + pitch as usize) * MAX_VOICES;
        self.slots[base + idx] = Some(new_pitch);
        proof {
            assert forall|c2: int, p2: int, v: int|
                valid_cell(c2, p2) && 0 <= v < MAX_VOICES as int
                    && !(c2 == c && p2 == p && v == idx as int)
                    implies #[trigger] self.slot(c2, p2, v) == old(self).slot(c2, p2, v) by {
                lemma_slot_index_bounds(c2, p2, v);
                if slot_index(c2, p2, v) == slot_index(c, p, idx as int) {
                    lemma_slot_index_injective(c2, p2, v, c, p, idx as int);
                }
            }
            assert forall|c2: int, p2: int|
                valid_cell(c2, p2) && !(c2 == c && p2 == p)
                    implies #[trigger] self.cell(c2, p2) == old(self).cell(c2, p2)
                        && self.cell_len(c2, p2) == old(self).cell_len(c2, p2) by {
                lemma_cell_agree(*self, *old(self), c2, p2);
            }
            if l < MAX_VOICES as int {
                assert forall|v: int| 0 <= v < l + 1 implies #[trigger] self.slot(c, p, v)
                    is Some by {
                    if v < l {
                        assert(old(self).slot(c, p, v) is Some);
                    }
                }
                if l + 1 < MAX_VOICES as int {
                    assert(old(self).slot(c, p, l + 1) is None);
                }
                lemma_free_from_is(*self, c, p, 0, l + 1);
                assert(self.cell(c, p) =~= old(self).cell(c, p).push(new_pitch));
            } else {
                assert forall|v: int| 0 <= v < MAX_VOICES as int
                    implies #[trigger] self.slot(c, p, v) is Some by {
                    if v != idx as int {
                        assert(old(self).slot(c, p, v) is Some);
                    }
                }
                lemma_free_from_is(*self, c, p, 0, MAX_VOICES as int);
                assert(self.cell(c, p) =~= old(self).cell(c, p).update(
                    MAX_VOICES as int - 1,
                    new_pitch,
                ));
            }
            assert forall|c2: int, p2: int, v: int|
                valid_cell(c2, p2) && self.cell_len(c2, p2) <= v < MAX_VOICES as int
                    implies #[trigger] self.slot(c2, p2, v) is None by {
                if c2 == c && p2 == p {
                    assert(old(self).slot(c, p, v) is None);
                } else {
                    lemma_cell_agree(*self, *old(self), c2, p2);
                    assert(old(self).slot(c2, p2, v) is None);
                }
            }
        }
    }

    /// Retrieves and clears the most recently recorded output pitch for
    /// (channel, pitch): the LIFO match for the cell's next Note-Off.
    /// Returns `None` — and changes nothing — when the cell is empty or the
    /// coordinates are out of range.
    pub fn pop_note_on(&mut self, channel: u8, pitch: u8) -> (r: Option<u8>)
        requires
            old(self).wf(),
        ensures
            final(self).wf(),
            valid_cell(channel as int, pitch as int) ==> {
                &&& r == cell_pop_value(old(self).cell(channel as int, pitch as int))
                &&& final(self).cell(channel as int, pitch as int) == cell_pop_rest(
                    old(self).cell(channel as int, pitch as int),
                )
            },
            !valid_cell(channel as int, pitch as int) ==> r is None,
            forall|c: int, p: int|
                valid_cell(c, p) && !(c == channel as int && p == pitch as int)
                    ==> #[trigger] final(self).cell(c, p) == old(self).cell(c, p),
    {
        if channel as usize >= MAX_CHANNELS || pitch as usize >= MAX_PITCHES {
            return None;
        }
        let ghost c = channel as int;
        let ghost p = pitch as int;
        let ghost l = self.cell_len(c, p);
        let idx = match self.next_free_index(channel, pitch) {
            Some(i) => i,
            None => MAX_VOICES,
        };
        if idx == 0 {
            return None;
        }
        proof {
            lemma_free_from_bounds(*self, c, p, 0);
            lemma_slot_index_bounds(c, p, idx as int - 1);
        }
        let base = (channel as usize * MAX_PITCHES + pitch as usize) * MAX_VOICES;
        let top = self.slots[base + idx - 1];
        self.slots[base + idx - 1] = None;
        proof {
            assert forall|c2: int, p2: int, v: int|
                valid_cell(c2, p2) && 0 <= v < MAX_VOICES as int
                    && !(c2 == c && p2 == p && v == idx as int - 1)
                    implies #[trigger] self.slot(c2, p2, v) == old(self).slot(c2, p2, v) by {
                lemma_slot_index_bounds(c2, p2, v);
                if slot_index(c2, p2, v) == slot_index(c, p, idx as int - 1) {
                    lemma_slot_index_injective(c2, p2, v, c, p, idx as int - 1);
                }
            }
            assert forall|c2: int, p2: int|
                valid_cell(c2, p2) && !(c2 == c && p2 == p)
                    implies #[trigger] self.cell(c2, p2) == old(self).cell(c2, p2)
                        && self.cell_len(c2, p2) == old(self).cell_len(c2, p2) by {
                lemma_cell_agree(*self, *old(self), c2, p2);
            }
            assert forall|v: int| 0 <= v < l - 1 implies #[trigger] self.slot(c, p, v)
                is Some by {
                assert(old(self).slot(c, p, v) is Some);
            }
            assert(self.slot(c, p, l - 1) is None);
            lemma_free_from_is(*self, c, p, 0, l - 1);
            assert(old(self).slot(c, p, l - 1) is Some);
            assert(top == old(self).slot(c, p, l - 1));
            assert(old(self).cell(c, p).last() == old(self).slot(c, p, l - 1)->Some_0);
            assert(self.cell(c, p) =~= old(self).cell(c, p).drop_last());
            assert forall|c2: int, p2: int, v: int|
                valid_cell(c2, p2) && self.cell_len(c2, p2) <= v < MAX_VOICES as int
                    implies #[trigger] self.slot(c2, p2, v) is None by {
                if c2 == c && p2 == p {
                    if v != l - 1 {
                        assert(old(self).slot(c, p, v) is None);
                    }
                } else {
                    lemma_cell_agree(*self, *old(self), c2, p2);
                    assert(old(self).slot(c2, p2, v) is None);
                }
            }
        }
        top
    }
}

} // verus!
