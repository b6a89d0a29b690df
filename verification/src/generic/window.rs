//! The receive windows of a connection: which datagram sequence numbers and
//! which reliable message indices have been seen.

use bytes::Bytes;
use std::collections::HashMap;
use vstd::prelude::*;

use crate::protocol::{RTT_WINDOW, U24_MAX, WINDOW_SIZE};

verus! {

// ---------------------------------------------------------------------------
// Ascending vectors as sets
// ---------------------------------------------------------------------------

/// Every element is smaller than the ones after it.
pub open spec fn ascending(s: Seq<u32>) -> bool {
    forall|i: int, j: int| 0 <= i < j < s.len() ==> s[i] < s[j]
}

/// Inserting a value adds it to what a sequence holds, and nothing else.
pub proof fn lemma_insert_holds(s: Seq<u32>, at: int, x: u32)
    requires
        0 <= at <= s.len(),
    ensures
        s.insert(at, x).to_set() == s.to_set().insert(x),
{
    let t = s.insert(at, x);
    assert forall|y: u32| t.contains(y) <==> (s.contains(y) || y == x) by {
        if s.contains(y) {
            let k = choose|k: int| 0 <= k < s.len() && s[k] == y;
            if k < at {
                assert(t[k] == y);
            } else {
                assert(t[k + 1] == y);
            }
        }
        if y == x {
            assert(t[at] == y);
        }
        if t.contains(y) {
            let k = choose|k: int| 0 <= k < t.len() && t[k] == y;
            if k < at {
                assert(s[k] == y);
            } else if k > at {
                assert(s[k - 1] == y);
            }
        }
    }
    assert(t.to_set() =~= s.to_set().insert(x));
}

/// Removing an element of an ascending sequence takes its value out of what
/// the sequence holds, and nothing else.
pub proof fn lemma_remove_holds(s: Seq<u32>, at: int)
    requires
        0 <= at < s.len(),
        ascending(s),
    ensures
        s.remove(at).to_set() == s.to_set().remove(s[at]),
        ascending(s.remove(at)),
{
    let t = s.remove(at);
    assert forall|y: u32| t.contains(y) <==> (s.contains(y) && y != s[at]) by {
        if s.contains(y) && y != s[at] {
            let k = choose|k: int| 0 <= k < s.len() && s[k] == y;
            if k < at {
                assert(t[k] == y);
            } else {
                assert(t[k - 1] == y);
            }
        }
        if t.contains(y) {
            let k = choose|k: int| 0 <= k < t.len() && t[k] == y;
            if k < at {
                assert(s[k] == y);
            } else {
                assert(s[k + 1] == y);
            }
        }
    }
    assert(t.to_set() =~= s.to_set().remove(s[at]));
}

/// Whether `v` holds `x`.
pub fn holds(v: &Vec<u32>, x: u32) -> (b: bool)
    ensures
        b == v@.contains(x),
        b == v@.to_set().contains(x),
{
    let mut i: usize = 0;
    while i < v.len()
        invariant
            i <= v.len(),
            forall|j: int| 0 <= j < i ==> v@[j] != x,
        decreases v.len() - i,
    {
        if v[i] == x {
            return true;
        }
        i = i + 1;
    }
    false
}

/// Puts `x` into the ascending vector `v`, unless it is there already.
pub fn insert_ascending(v: &mut Vec<u32>, x: u32)
    requires
        ascending(old(v)@),
    ensures
        ascending(final(v)@),
        final(v)@.to_set() == old(v)@.to_set().insert(x),
{
    let mut i: usize = 0;
    while i < v.len() && v[i] < x
        invariant
            i <= v.len(),
            forall|j: int| 0 <= j < i ==> v@[j] < x,
        decreases v.len() - i,
    {
        i = i + 1;
    }
    if i < v.len() && v[i] == x {
        assert(v@.contains(x));
        assert(v@.to_set() =~= v@.to_set().insert(x));
        return ;
    }
    proof {
        lemma_insert_holds(v@, i as int, x);
    }
    v.insert(i, x);
}

/// Takes `x` out of the ascending vector `v`, if it is there.
pub fn remove_ascending(v: &mut Vec<u32>, x: u32)
    requires
        ascending(old(v)@),
    ensures
        ascending(final(v)@),
        final(v)@.to_set() == old(v)@.to_set().remove(x),
{
    let mut i: usize = 0;
    while i < v.len() && v[i] != x
        invariant
            i <= v.len(),
            forall|j: int| 0 <= j < i ==> v@[j] != x,
        decreases v.len() - i,
    {
        i = i + 1;
    }
    if i < v.len() {
        proof {
            lemma_remove_holds(v@, i as int);
        }
        v.remove(i);
    } else {
        assert(!v@.contains(x));
        assert(v@.to_set() =~= v@.to_set().remove(x));
    }
}

/// The first number at or after `from` and below `end` that `seen` lacks, or
/// `end` if there is none.
pub open spec fn first_gap(seen: Set<u32>, from: int, end: int) -> int
    decreases end - from,
{
    if from >= end || !seen.contains(from as u32) {
        from
    } else {
        first_gap(seen, from + 1, end)
    }
}

/// The first gap lies at or after `from`, at or before `end` where `from` does,
/// every number between `from` and the gap is seen, and the gap itself is not
/// unless it is `end`.
pub proof fn lemma_first_gap(seen: Set<u32>, from: int, end: int)
    ensures
        from <= first_gap(seen, from, end),
        from <= end ==> first_gap(seen, from, end) <= end,
        forall|i: u32| from <= i < first_gap(seen, from, end) ==> seen.contains(i),
        first_gap(seen, from, end) < end ==> !seen.contains(first_gap(seen, from, end) as u32),
    decreases end - from,
{
    if from >= end || !seen.contains(from as u32) {
    } else {
        lemma_first_gap(seen, from + 1, end);
    }
}

// ---------------------------------------------------------------------------
// Datagram sequence numbers
// ---------------------------------------------------------------------------

/// Filters incoming datagrams by their sequence number and keeps the account
/// of what to acknowledge at the next tick: `acks` are the numbers received in
/// this epoch, `nacks` the numbers below one of them that are still missing.
/// Both are kept in ascending order.
pub struct SequenceWindow {
    pub start: u32,
    pub end: u32,
    pub highest: u32,
    pub acks: Vec<u32>,
    pub nacks: Vec<u32>,
}

/// A sequence window as a mathematical value.
pub ghost struct SequenceState {
    pub start: int,
    pub end: int,
    pub highest: int,
    pub acks: Set<u32>,
    pub nacks: Set<u32>,
}

impl SequenceState {
    /// The state of a new window.
    pub open spec fn fresh() -> SequenceState {
        SequenceState {
            start: 0,
            end: WINDOW_SIZE as int,
            highest: 0,
            acks: Set::empty(),
            nacks: Set::empty(),
        }
    }

    /// A datagram with this number is let through: the number lies in the
    /// window and was not received in this epoch.
    pub open spec fn accepts(self, seq: u32) -> bool {
        self.start <= seq < self.end && !self.acks.contains(seq)
    }

    /// The state after a datagram with the number `seq` has arrived.
    pub open spec fn receive(self, seq: u32) -> SequenceState {
        if !self.accepts(seq) {
            self
        } else {
            let acks = self.acks.insert(seq);
            let highest = if seq > self.highest {
                seq as int
            } else {
                self.highest
            };
            if seq == self.start {
                let start = first_gap(acks, self.start, self.end);
                SequenceState {
                    start,
                    end: start + WINDOW_SIZE,
                    highest,
                    acks,
                    nacks: self.nacks.remove(seq),
                }
            } else {
                SequenceState {
                    start: self.start,
                    end: self.end,
                    highest,
                    acks,
                    nacks: self.nacks.remove(seq).union(
                        Set::new(|i: u32| self.start <= i < seq && !acks.contains(i)),
                    ),
                }
            }
        }
    }

    /// The state after the epoch has been closed: where something was
    /// received in it, the window starts after the highest number seen.
    pub open spec fn shift(self) -> SequenceState {
        if self.acks == Set::<u32>::empty() {
            self
        } else {
            SequenceState {
                start: self.highest + 1,
                end: self.highest + 1 + WINDOW_SIZE,
                ..self
            }
        }
    }

    /// The state after the datagrams with the numbers `input` have arrived
    /// one after the other.
    pub open spec fn run(self, input: Seq<u32>) -> SequenceState
        decreases input.len(),
    {
        if input.len() == 0 {
            self
        } else {
            self.run(input.drop_last()).receive(input.last())
        }
    }

    /// The numbers among `input` whose datagram was let through.
    pub open spec fn accepted(self, input: Seq<u32>) -> Set<u32>
        decreases input.len(),
    {
        if input.len() == 0 {
            Set::empty()
        } else if self.run(input.drop_last()).accepts(input.last()) {
            self.accepted(input.drop_last()).insert(input.last())
        } else {
            self.accepted(input.drop_last())
        }
    }
}

impl View for SequenceWindow {
    type V = SequenceState;

    open spec fn view(&self) -> SequenceState {
        SequenceState {
            start: self.start as int,
            end: self.end as int,
            highest: self.highest as int,
            acks: self.acks@.to_set(),
            nacks: self.nacks@.to_set(),
        }
    }
}

impl SequenceWindow {
    /// The invariant of the window. The window is `WINDOW_SIZE` wide; no
    /// number is both acknowledged and missing; nothing above the highest
    /// number seen is on either list; and once something was received in the
    /// epoch, every number from the start of the window to the highest number
    /// seen is on one of the lists.
    pub open spec fn wf(&self) -> bool {
        let acks = self.acks@.to_set();
        let nacks = self.nacks@.to_set();
        &&& self.end == self.start + WINDOW_SIZE
        &&& self.start <= U24_MAX + 1
        &&& self.highest <= U24_MAX
        &&& ascending(self.acks@)
        &&& ascending(self.nacks@)
        &&& forall|i: u32| acks.contains(i) ==> i <= self.highest
        &&& forall|i: u32| nacks.contains(i) ==> i < self.highest
        &&& forall|i: u32| !(acks.contains(i) && nacks.contains(i))
        &&& self.acks@.len() > 0 ==> self.start <= self.highest + 1
        &&& self.acks@.len() > 0 ==> forall|i: u32|
            self.start <= i <= self.highest ==> acks.contains(i) || nacks.contains(i)
        &&& self.acks@.len() == 0 ==> self.highest <= self.start
    }

    /// A window that starts at 0 and has seen nothing.
    pub fn new() -> (w: SequenceWindow)
        ensures
            w.wf(),
            w@ == SequenceState::fresh(),
    {
        let w = SequenceWindow {
            start: 0,
            end: WINDOW_SIZE,
            highest: 0,
            acks: Vec::new(),
            nacks: Vec::new(),
        };
        assert(w.acks@.to_set() =~= Set::<u32>::empty());
        assert(w.nacks@.to_set() =~= Set::<u32>::empty());
        w
    }

    /// Takes in the sequence number of a datagram and says whether the
    /// datagram is to be processed. It is not when the number lies outside
    /// the window or was received before in this epoch. Otherwise the number
    /// is acknowledged; where it is the start of the window, the window
    /// slides past every number acknowledged in a row; where it is not, every
    /// number between the start and it that was not received is missing.
    pub fn receive(&mut self, seq: u32) -> (accepted: bool)
        requires
            old(self).wf(),
            seq <= U24_MAX,
        ensures
            final(self).wf(),
            accepted == old(self)@.accepts(seq),
            final(self)@ == old(self)@.receive(seq),
    {
        if seq < self.start || seq >= self.end || holds(&self.acks, seq) {
            return false;
        }
        let ghost before = *self;
        remove_ascending(&mut self.nacks, seq);
        insert_ascending(&mut self.acks, seq);
        if seq > self.highest {
            self.highest = seq;
        }
        let ghost acks = self.acks@.to_set();
        let ghost nacks0 = self.nacks@.to_set();
        assert(acks == before@.acks.insert(seq));
        assert(acks.contains(seq));
        assert(self.acks@.contains(seq));
        assert(self.acks@.len() > 0);
        assert(before.acks@.len() > 0 ==> before@.acks.contains(before.acks@[0])) by {
            if before.acks@.len() > 0 {
                assert(before.acks@.contains(before.acks@[0]));
            }
        }
        if seq == self.start {
            let from: u32 = self.start;
            let end: u32 = self.end;
            let mut i: u32 = from;
            while i < end && holds(&self.acks, i)
                invariant
                    from <= i <= end,
                    end == from + WINDOW_SIZE,
                    from <= U24_MAX + 1,
                    acks == self.acks@.to_set(),
                    forall|j: u32| from <= j < i ==> acks.contains(j),
                    first_gap(acks, from as int, end as int) == first_gap(
                        acks,
                        i as int,
                        end as int,
                    ),
                decreases end - i,
            {
                i = i + 1;
            }
            proof {
                assert(i >= 1 && acks.contains((i - 1) as u32));
                assert forall|j: u32| i <= j <= self.highest implies acks.contains(j)
                    || nacks0.contains(j) by {
                    if before.acks@.len() > 0 {
                        assert(before@.acks.contains(j) || before@.nacks.contains(j));
                    } else {
                        assert(before.highest <= before.start);
                    }
                }
            }
            self.start = i;
            self.end = i + WINDOW_SIZE;
        } else {
            let from: u32 = self.start;
            let ghost base = self.nacks@.to_set();
            let mut i: u32 = from;
            while i < seq
                invariant
                    from <= i <= seq,
                    acks == self.acks@.to_set(),
                    ascending(self.nacks@),
                    self.nacks@.to_set() == base.union(
                        Set::new(|j: u32| from <= j < i && !acks.contains(j)),
                    ),
                    self.start == from,
                    self.end == before.end,
                    self.highest >= seq,
                    self.highest <= U24_MAX,
                    self.highest == if seq > before.highest {
                        seq
                    } else {
                        before.highest
                    },
                    ascending(self.acks@),
                    acks == before@.acks.insert(seq),
                decreases seq - i,
            {
                if !holds(&self.acks, i) {
                    insert_ascending(&mut self.nacks, i);
                }
                i = i + 1;
                assert(self.nacks@.to_set() =~= base.union(
                    Set::new(|j: u32| from <= j < i && !acks.contains(j)),
                ));
            }
            proof {
                let nacks = self.nacks@.to_set();
                let added = Set::new(|k: u32| from <= k < seq && !acks.contains(k));
                assert(nacks == base.union(added));
                assert forall|j: u32| self.start <= j <= self.highest implies acks.contains(j)
                    || nacks.contains(j) by {
                    if j < seq {
                        if !acks.contains(j) {
                            assert(added.contains(j));
                        }
                    } else if j > seq {
                        assert(before.acks@.len() > 0);
                        assert(before@.acks.contains(j) || before@.nacks.contains(j));
                        assert(j != seq);
                        assert(acks.contains(j) || base.contains(j));
                    }
                }
                assert forall|j: u32| nacks.contains(j) implies j < self.highest by {
                    if added.contains(j) {
                    } else {
                        assert(base.contains(j));
                        assert(before@.nacks.contains(j));
                    }
                }
                assert forall|j: u32| !(acks.contains(j) && nacks.contains(j)) by {
                    if nacks.contains(j) && !added.contains(j) {
                        assert(base.contains(j));
                        assert(before@.nacks.contains(j));
                    }
                }
            }
        }
        true
    }

    /// Closes the epoch. Where something was received in it, the window
    /// from now on starts after the highest number seen.
    pub fn shift(&mut self)
        requires
            old(self).wf(),
        ensures
            final(self).wf(),
            final(self)@ == old(self)@.shift(),
            final(self).acks@ == old(self).acks@,
            final(self).nacks@ == old(self).nacks@,
            final(self).highest == old(self).highest,
            old(self).acks@.len() > 0 ==> final(self).start == old(self).highest + 1,
            old(self).acks@.len() == 0 ==> final(self).start == old(self).start,
    {
        if self.acks.len() > 0 {
            assert(self.acks@.to_set().contains(self.acks@[0]));
            self.start = self.highest + 1;
            self.end = self.start + WINDOW_SIZE;
        } else {
            assert(self.acks@.to_set() =~= Set::<u32>::empty());
        }
    }

    /// Closes the epoch and hands out its account: the numbers to
    /// acknowledge and the numbers to report missing, each in ascending
    /// order. The window is shifted and both lists start empty again.
    pub fn drain(&mut self) -> (receipts: (Vec<u32>, Vec<u32>))
        requires
            old(self).wf(),
        ensures
            final(self).wf(),
            receipts.0@ == old(self).acks@,
            receipts.1@ == old(self).nacks@,
            ascending(receipts.0@),
            ascending(receipts.1@),
            final(self).acks@ == Seq::<u32>::empty(),
            final(self).nacks@ == Seq::<u32>::empty(),
            final(self).start == old(self)@.shift().start,
            final(self).end == old(self)@.shift().end,
            final(self).highest == old(self).highest,
    {
        self.shift();
        let mut acks: Vec<u32> = Vec::new();
        let mut nacks: Vec<u32> = Vec::new();
        std::mem::swap(&mut self.acks, &mut acks);
        std::mem::swap(&mut self.nacks, &mut nacks);
        assert(self.acks@.to_set() =~= Set::<u32>::empty());
        assert(self.nacks@.to_set() =~= Set::<u32>::empty());
        (acks, nacks)
    }
}

/// No number is both acknowledged and missing, and nothing that was received
/// is beyond the window.
pub open spec fn sequence_inv(s: SequenceState) -> bool {
    &&& s.acks.disjoint(s.nacks)
    &&& s.end == s.start + WINDOW_SIZE
    &&& s.start >= 0
    &&& forall|i: u32| s.acks.contains(i) ==> i < s.end
    &&& forall|i: u32| i < s.start ==> s.acks.contains(i)
}

/// One arrival keeps the invariant of a run.
proof fn lemma_receive_inv(s: SequenceState, seq: u32)
    requires
        sequence_inv(s),
    ensures
        sequence_inv(s.receive(seq)),
{
    if s.accepts(seq) {
        let acks = s.acks.insert(seq);
        if seq == s.start {
            lemma_first_gap(acks, s.start, s.end);
        }
    }
}

/// A run keeps the invariant, and what is acknowledged after it are the
/// numbers that were let through.
proof fn lemma_run_inv(input: Seq<u32>)
    ensures
        sequence_inv(SequenceState::fresh().run(input)),
        SequenceState::fresh().run(input).acks == SequenceState::fresh().accepted(input),
    decreases input.len(),
{
    if input.len() > 0 {
        lemma_run_inv(input.drop_last());
        lemma_receive_inv(SequenceState::fresh().run(input.drop_last()), input.last());
    }
}

/// Whatever arrives at a new window and in whatever order: the numbers
/// acknowledged are those of the datagrams that were let through, and none of
/// them is reported missing.
pub proof fn lemma_acks_are_accepted(input: Seq<u32>)
    ensures
        SequenceState::fresh().run(input).acks == SequenceState::fresh().accepted(input),
        SequenceState::fresh().run(input).acks.disjoint(SequenceState::fresh().run(input).nacks),
{
    lemma_run_inv(input);
}

/// Where the numbers that arrive at a new window are all different and each
/// lies below the end of the window when it arrives, every datagram is let
/// through: the numbers acknowledged are exactly the numbers that arrived, and
/// none of them is reported missing.
pub proof fn lemma_unique_stream_acknowledged(input: Seq<u32>)
    requires
        input.no_duplicates(),
        forall|k: int|
            0 <= k < input.len() ==> input[k] < (#[trigger] SequenceState::fresh().run(
                input.take(k),
            )).end,
    ensures
        SequenceState::fresh().run(input).acks == input.to_set(),
        SequenceState::fresh().run(input).acks.disjoint(SequenceState::fresh().run(input).nacks),
    decreases input.len(),
{
    lemma_run_inv(input);
    if input.len() > 0 {
        let head = input.drop_last();
        let last = input.last();
        assert forall|k: int| 0 <= k < head.len() implies head[k] < (
        #[trigger] SequenceState::fresh().run(head.take(k))).end by {
            assert(head.take(k) =~= input.take(k));
        }
        lemma_unique_stream_acknowledged(head);
        lemma_run_inv(head);
        let before = SequenceState::fresh().run(head);
        assert(input.take(input.len() - 1) =~= head);
        assert(!head.contains(last)) by {
            if head.contains(last) {
                let k = choose|k: int| 0 <= k < head.len() && head[k] == last;
                assert(input[k] == input[input.len() - 1]);
            }
        }
        assert(!before.acks.contains(last));
        assert(before.start <= last) by {
            if last < before.start {
                assert(before.acks.contains(last));
            }
        }
        assert(before.accepts(last));
        assert(input.to_set() =~= head.to_set().insert(last)) by {
            assert forall|y: u32| input.contains(y) <==> (head.contains(y) || y == last) by {
                if input.contains(y) {
                    let k = choose|k: int| 0 <= k < input.len() && input[k] == y;
                    if k < head.len() {
                        assert(head[k] == y);
                    }
                }
                if head.contains(y) {
                    let k = choose|k: int| 0 <= k < head.len() && head[k] == y;
                    assert(input[k] == y);
                }
                if y == last {
                    assert(input[input.len() - 1] == y);
                }
            }
        }
    } else {
        assert(input.to_set() =~= Set::<u32>::empty());
    }
}


// ---------------------------------------------------------------------------
// Reliable message indices
// ---------------------------------------------------------------------------

/// Lets every reliable message index through at most once. Datagrams that are
/// sent again carry a new sequence number and the old message indices, so this
/// is the second shield against handling a message twice. `indexes` are the
/// indices received above the start of the window, in ascending order.
pub struct MessageWindow {
    pub start: u32,
    pub end: u32,
    pub indexes: Vec<u32>,
}

/// A message window as a mathematical value.
pub ghost struct MessageState {
    pub start: int,
    pub end: int,
    pub indexes: Set<u32>,
}

impl MessageState {
    /// The state of a new window.
    pub open spec fn fresh() -> MessageState {
        MessageState { start: 0, end: WINDOW_SIZE as int, indexes: Set::empty() }
    }

    /// The index was delivered: it lies below the window or is held in it.
    pub open spec fn seen(self, index: u32) -> bool {
        index < self.start || self.indexes.contains(index)
    }

    /// A message with this index is let through: the index lies in the window
    /// and was not delivered.
    pub open spec fn accepts(self, index: u32) -> bool {
        self.start <= index < self.end && !self.indexes.contains(index)
    }

    /// The state after a message with this index has arrived. An index that
    /// is the start of the window makes the window slide past every index
    /// delivered in a row, and those indices are no longer held.
    pub open spec fn receive(self, index: u32) -> MessageState {
        if !self.accepts(index) {
            self
        } else if index == self.start {
            let held = self.indexes.insert(index);
            let start = first_gap(held, self.start, self.end);
            MessageState {
                start,
                end: start + WINDOW_SIZE,
                indexes: Set::new(|i: u32| held.contains(i) && i >= start),
            }
        } else {
            MessageState { indexes: self.indexes.insert(index), ..self }
        }
    }
}

impl View for MessageWindow {
    type V = MessageState;

    open spec fn view(&self) -> MessageState {
        MessageState {
            start: self.start as int,
            end: self.end as int,
            indexes: self.indexes@.to_set(),
        }
    }
}

impl MessageWindow {
    /// The invariant of the window: it is `WINDOW_SIZE` wide and holds only
    /// indices above its start and below its end.
    pub open spec fn wf(&self) -> bool {
        &&& self.end == self.start + WINDOW_SIZE
        &&& self.start <= U24_MAX + 1
        &&& ascending(self.indexes@)
        &&& forall|i: u32|
            self.indexes@.to_set().contains(i) ==> self.start < i < self.end && i <= U24_MAX
    }

    /// A window that starts at 0 and has seen nothing.
    pub fn new() -> (w: MessageWindow)
        ensures
            w.wf(),
            w@ == MessageState::fresh(),
    {
        let w = MessageWindow { start: 0, end: WINDOW_SIZE, indexes: Vec::new() };
        assert(w.indexes@.to_set() =~= Set::<u32>::empty());
        w
    }

    /// Takes in the index of a reliable message and says whether the message
    /// is to be processed. It is not when the index lies outside the window or
    /// was delivered before; a second delivery of an index therefore changes
    /// nothing.
    pub fn receive(&mut self, index: u32) -> (accepted: bool)
        requires
            old(self).wf(),
            index <= U24_MAX,
        ensures
            final(self).wf(),
            accepted == old(self)@.accepts(index),
            final(self)@ == old(self)@.receive(index),
            !final(self)@.accepts(index),
            !accepted ==> *final(self) == *old(self),
    {
        if index < self.start || index >= self.end || holds(&self.indexes, index) {
            return false;
        }
        let ghost before = *self;
        insert_ascending(&mut self.indexes, index);
        let ghost held = self.indexes@.to_set();
        if index == self.start {
            let from: u32 = self.start;
            let end: u32 = self.end;
            let mut i: u32 = from;
            while i < end && holds(&self.indexes, i)
                invariant
                    from <= i <= end,
                    end == from + WINDOW_SIZE,
                    from <= U24_MAX + 1,
                    ascending(self.indexes@),
                    held == before@.indexes.insert(index),
                    index == from,
                    forall|j: u32| held.contains(j) ==> from <= j < end && j <= U24_MAX,
                    self.indexes@.to_set() == Set::new(|j: u32| held.contains(j) && j >= i),
                    forall|j: u32| from <= j < i ==> held.contains(j),
                    first_gap(held, from as int, end as int) == first_gap(
                        held,
                        i as int,
                        end as int,
                    ),
                decreases end - i,
            {
                remove_ascending(&mut self.indexes, i);
                i = i + 1;
                assert(self.indexes@.to_set() =~= Set::new(|j: u32| held.contains(j) && j >= i));
            }
            proof {
                assert(held.contains(from));
                assert(i > from);
                assert(i >= 1 && held.contains((i - 1) as u32));
                assert forall|j: u32| self.indexes@.to_set().contains(j) implies i < j < i
                    + WINDOW_SIZE && j <= U24_MAX by {
                    assert(held.contains(j) && j >= i);
                    if j == i {
                        assert(self.indexes@.to_set().contains(i));
                    }
                }
            }
            self.start = i;
            self.end = i + WINDOW_SIZE;
        } else {
            assert forall|j: u32| self.indexes@.to_set().contains(j) implies self.start < j
                < self.end && j <= U24_MAX by {
                if j != index {
                    assert(before@.indexes.contains(j));
                }
            }
        }
        true
    }
}

/// An index that has just arrived is not let through again, and its second
/// arrival changes nothing.
pub proof fn lemma_message_delivered_once(s: MessageState, index: u32)
    ensures
        !s.receive(index).accepts(index),
        s.receive(index).receive(index) == s.receive(index),
{
    if s.accepts(index) && index == s.start {
        let held = s.indexes.insert(index);
        lemma_first_gap(held, s.start, s.end);
        assert(first_gap(held, s.start, s.end) == first_gap(held, s.start + 1, s.end));
        lemma_first_gap(held, s.start + 1, s.end);
    }
}

/// An index that was delivered stays delivered whatever arrives later, and is
/// never let through again.
pub proof fn lemma_message_delivered_for_good(s: MessageState, index: u32, later: u32)
    requires
        s.seen(index) || s.accepts(index) && later == index,
    ensures
        s.receive(later).seen(index),
        !s.receive(later).accepts(index),
{
    if s.accepts(later) && later == s.start {
        let held = s.indexes.insert(later);
        lemma_first_gap(held, s.start, s.end);
        assert(first_gap(held, s.start, s.end) == first_gap(held, s.start + 1, s.end));
        lemma_first_gap(held, s.start + 1, s.end);
    }
}

// ---------------------------------------------------------------------------
// Fragments
// ---------------------------------------------------------------------------

/// Collects the fragments of one split message until all of them are there.
pub struct SplitWindow {
    pub count: u32,
    pub fragments: Vec<Option<Vec<u8>>>,
}

/// The fragments `0..n` of `fragments` one after the other.
pub open spec fn joined(fragments: Seq<Option<Seq<u8>>>, n: int) -> Seq<u8>
    decreases n,
{
    if n <= 0 {
        Seq::empty()
    } else {
        joined(fragments, n - 1) + fragments[n - 1].unwrap()
    }
}

/// Every fragment is there.
pub open spec fn complete(fragments: Seq<Option<Seq<u8>>>) -> bool {
    forall|i: int| 0 <= i < fragments.len() ==> (#[trigger] fragments[i]) is Some
}

impl View for SplitWindow {
    type V = Seq<Option<Seq<u8>>>;

    /// The fragments by index, each as a byte sequence where it has arrived.
    open spec fn view(&self) -> Seq<Option<Seq<u8>>> {
        Seq::new(
            self.fragments@.len(),
            |i: int|
                match self.fragments@[i] {
                    Some(bytes) => Some(bytes@),
                    None => None,
                },
        )
    }
}

impl SplitWindow {
    /// There is one slot for each of the `count` fragments.
    pub open spec fn wf(&self) -> bool {
        self.fragments@.len() == self.count
    }

    /// A window for a message of `count` fragments, none of which has arrived.
    pub fn new(count: u32) -> (w: SplitWindow)
        ensures
            w.wf(),
            w.count == count,
            w@ == Seq::new(count as nat, |i: int| None::<Seq<u8>>),
    {
        let mut fragments: Vec<Option<Vec<u8>>> = Vec::new();
        let mut i: u32 = 0;
        while i < count
            invariant
                i <= count,
                fragments@.len() == i,
                forall|j: int| 0 <= j < i ==> fragments@[j] is None,
            decreases count - i,
        {
            fragments.push(None);
            i = i + 1;
        }
        let w = SplitWindow { count, fragments };
        assert(w@ =~= Seq::new(count as nat, |i: int| None::<Seq<u8>>));
        w
    }

    /// Stores the fragment with the given index, in place of an earlier one
    /// with that index. Once every fragment is there, the result is the
    /// message: the fragments in the order of their indices. A fragment whose
    /// index is not below the count is dropped.
    pub fn receive(&mut self, index: u32, fragment: Vec<u8>) -> (message: Option<Vec<u8>>)
        requires
            old(self).wf(),
        ensures
            final(self).wf(),
            final(self).count == old(self).count,
            final(self)@ == if index < old(self).count {
                old(self)@.update(index as int, Some(fragment@))
            } else {
                old(self)@
            },
            match message {
                Some(bytes) => index < old(self).count && complete(final(self)@) && bytes@
                    == joined(final(self)@, old(self).count as int),
                None => !(index < old(self).count && complete(final(self)@)),
            },
    {
        if index >= self.count {
            assert(self@ =~= old(self)@);
            return None;
        }
        self.fragments.set(index as usize, Some(fragment));
        assert(self@ =~= old(self)@.update(index as int, Some(fragment@)));
        let n: usize = self.fragments.len();
        let mut i: usize = 0;
        while i < n
            invariant
                i <= n,
                n == self.fragments@.len(),
                self.wf(),
                self.count == old(self).count,
                index < self.count,
                self@ == old(self)@.update(index as int, Some(fragment@)),
                forall|j: int| 0 <= j < i ==> (#[trigger] self@[j]) is Some,
            decreases n - i,
        {
            if self.fragments[i].is_none() {
                assert(self@[i as int] is None);
                return None;
            }
            assert(self@[i as int] is Some);
            i = i + 1;
        }
        let mut buffer: Vec<u8> = Vec::new();
        let mut i: usize = 0;
        while i < n
            invariant
                i <= n,
                n == self.fragments@.len(),
                self.wf(),
                self.count == old(self).count,
                index < self.count,
                self@ == old(self)@.update(index as int, Some(fragment@)),
                complete(self@),
                buffer@ == joined(self@, i as int),
            decreases n - i,
        {
            assert(self@[i as int] is Some);
            match &self.fragments[i] {
                Some(bytes) => {
                    assert(self@[i as int] == Some(bytes@));
                    append(&mut buffer, bytes.as_slice());
                },
                None => {},
            }
            i = i + 1;
        }
        Some(buffer)
    }
}

/// Appends the bytes of `src` to `dst`.
pub fn append(dst: &mut Vec<u8>, src: &[u8])
    ensures
        final(dst)@ == old(dst)@ + src@,
{
    let mut i: usize = 0;
    while i < src.len()
        invariant
            i <= src@.len(),
            dst@ == old(dst)@ + src@.subrange(0, i as int),
        decreases src@.len() - i,
    {
        dst.push(src[i]);
        i = i + 1;
        assert(dst@ =~= old(dst)@ + src@.subrange(0, i as int));
    }
    assert(src@.subrange(0, src@.len() as int) =~= src@);
}

// ---------------------------------------------------------------------------
// Recovery
// ---------------------------------------------------------------------------

/// A datagram that was sent and not yet acknowledged: the frames it carried
/// and the time at which it was sent, in milliseconds.
pub struct Record {
    pub packet: Bytes,
    pub instant: u64,
}

/// One measurement of the time the peer took to answer a datagram: when the
/// answer came and how long it took, both in milliseconds.
#[derive(Clone, Copy, Debug, PartialEq, Eq)]
pub struct Sample {
    pub at: u64,
    pub delay: u64,
}

/// The datagrams that may have to be sent again, by sequence number, and the
/// round-trip samples taken when the peer acknowledged or missed them. The
/// samples stand in the order in which they were taken, one for each datagram
/// that was acknowledged or missed, also where several were taken at the
/// same instant, as they are for the datagrams that one receipt names.
pub struct RecoveryWindow {
    pub unacknowledged: HashMap<u32, Record>,
    pub delays: Vec<Sample>,
}

/// The milliseconds from `since` to `now`; none where the clock went back.
pub open spec fn elapsed(since: u64, now: u64) -> u64 {
    if now >= since {
        (now - since) as u64
    } else {
        0
    }
}

/// Twice `delay`, or the largest number where that does not fit.
pub open spec fn doubled(delay: u64) -> u64 {
    if delay > u64::MAX / 2 {
        u64::MAX
    } else {
        (delay * 2) as u64
    }
}

/// The sample was taken within the last five seconds.
pub open spec fn is_recent(sample: Sample, now: u64) -> bool {
    elapsed(sample.at, now) <= RTT_WINDOW
}

/// The samples taken within the last five seconds, in their order.
pub open spec fn recent(samples: Seq<Sample>, now: u64) -> Seq<Sample> {
    samples.filter(|s: Sample| is_recent(s, now))
}

/// The sum of the delays of the samples.
pub open spec fn total(samples: Seq<Sample>) -> nat
    decreases samples.len(),
{
    if samples.len() == 0 {
        0
    } else {
        total(samples.drop_last()) + samples.last().delay as nat
    }
}

/// The arithmetic mean of the delays, rounded down; zero without samples.
pub open spec fn mean(samples: Seq<Sample>) -> nat {
    if samples.len() == 0 {
        0
    } else {
        total(samples) / samples.len()
    }
}

/// The sum of the delays is at most the largest delay times their number.
proof fn lemma_total_bound(samples: Seq<Sample>)
    ensures
        total(samples) <= samples.len() * u64::MAX,
    decreases samples.len(),
{
    if samples.len() > 0 {
        lemma_total_bound(samples.drop_last());
        assert(total(samples) <= (samples.len() - 1) * u64::MAX + u64::MAX);
        assert((samples.len() - 1) * u64::MAX + u64::MAX == samples.len() * u64::MAX)
            by (nonlinear_arith);
    }
}

fn time_between(since: u64, now: u64) -> (d: u64)
    ensures
        d == elapsed(since, now),
{
    if now >= since {
        now - since
    } else {
        0
    }
}

impl RecoveryWindow {
    /// A window that holds no datagram and no sample.
    pub fn new() -> (w: RecoveryWindow)
        ensures
            w.unacknowledged@ == Map::<u32, Record>::empty(),
            w.delays@ == Seq::<Sample>::empty(),
    {
        RecoveryWindow { unacknowledged: HashMap::new(), delays: Vec::new() }
    }

    /// Keeps the datagram sent at `now` under `sequence`, in place of an
    /// earlier one with that number.
    pub fn add(&mut self, sequence: u32, packet: Bytes, now: u64)
        ensures
            final(self).unacknowledged@ == old(self).unacknowledged@.insert(
                sequence,
                Record { packet, instant: now },
            ),
            final(self).delays@ == old(self).delays@,
    {
        broadcast use vstd::std_specs::hash::group_hash_axioms;

        self.unacknowledged.insert(sequence, Record { packet, instant: now });
    }

    /// The peer has acknowledged the datagram `sequence`: it is dropped, and
    /// the time since it was sent is a new sample. Nothing happens where no
    /// such datagram is held.
    pub fn acknowledge(&mut self, sequence: u32, now: u64)
        ensures
            final(self).unacknowledged@ == old(self).unacknowledged@.remove(sequence),
            final(self).delays@ == if old(self).unacknowledged@.contains_key(sequence) {
                old(self).delays@.push(
                    Sample {
                        at: now,
                        delay: elapsed(old(self).unacknowledged@[sequence].instant, now),
                    },
                )
            } else {
                old(self).delays@
            },
    {
        broadcast use vstd::std_specs::hash::group_hash_axioms;

        match self.unacknowledged.remove(&sequence) {
            Some(record) => {
                let delay: u64 = time_between(record.instant, now);
                self.delays.push(Sample { at: now, delay });
            },
            None => {},
        }
    }

    /// The peer has missed the datagram `sequence`: it is taken out and
    /// handed back to be sent again, and twice the time since it was sent is
    /// a new sample. The result is `None` where no such datagram is held.
    pub fn retransmit(&mut self, sequence: u32, now: u64) -> (packet: Option<Bytes>)
        ensures
            final(self).unacknowledged@ == old(self).unacknowledged@.remove(sequence),
            match packet {
                Some(bytes) => old(self).unacknowledged@.contains_key(sequence) && bytes == old(
                    self,
                ).unacknowledged@[sequence].packet && final(self).delays@ == old(
                    self,
                ).delays@.push(
                    Sample {
                        at: now,
                        delay: doubled(elapsed(old(self).unacknowledged@[sequence].instant, now)),
                    },
                ),
                None => !old(self).unacknowledged@.contains_key(sequence) && final(self).delays@
                    == old(self).delays@,
            },
    {
        broadcast use vstd::std_specs::hash::group_hash_axioms;

        match self.unacknowledged.remove(&sequence) {
            Some(record) => {
                let once: u64 = time_between(record.instant, now);
                let delay: u64 = if once > u64::MAX / 2 {
                    u64::MAX
                } else {
                    once * 2
                };
                self.delays.push(Sample { at: now, delay });
                Some(record.packet)
            },
            None => None,
        }
    }

    /// The time the peer currently takes to answer, in milliseconds: the mean
    /// of the samples taken within five seconds before `now`. Older samples
    /// are dropped. Without a sample that recent the result is zero.
    pub fn rtt(&mut self, now: u64) -> (latency: u64)
        ensures
            final(self).unacknowledged@ == old(self).unacknowledged@,
            final(self).delays@ == recent(old(self).delays@, now),
            latency == mean(final(self).delays@),
            (forall|i: int|
                0 <= i < old(self).delays@.len() ==> !is_recent(
                    #[trigger] old(self).delays@[i],
                    now,
                )) ==> latency == 0,
    {
        let ghost before = self.delays@;
        let ghost pred = |s: Sample| is_recent(s, now);
        let mut kept: Vec<Sample> = Vec::new();
        let mut i: usize = 0;
        while i < self.delays.len()
            invariant
                i <= self.delays@.len(),
                self.delays@ == before,
                pred == (|s: Sample| is_recent(s, now)),
                kept@ == before.take(i as int).filter(pred),
                (forall|j: int| 0 <= j < i ==> !is_recent(#[trigger] before[j], now))
                    ==> kept@.len() == 0,
            decreases self.delays@.len() - i,
        {
            let sample = self.delays[i];
            proof {
                assert(before.take(i + 1) =~= before.take(i as int).push(sample));
                before.take(i as int).lemma_filter_push(sample, pred);
            }
            if time_between(sample.at, now) <= RTT_WINDOW {
                kept.push(sample);
            }
            i = i + 1;
        }
        assert(before.take(before.len() as int) =~= before);
        self.delays = kept;
        let n: usize = self.delays.len();
        if n == 0 {
            return 0;
        }
        let mut sum: u128 = 0;
        let mut i: usize = 0;
        while i < n
            invariant
                i <= n,
                n == self.delays@.len(),
                sum == total(self.delays@.take(i as int)),
                sum <= i * u64::MAX,
            decreases n - i,
        {
            proof {
                assert(self.delays@.take(i + 1).drop_last() =~= self.delays@.take(i as int));
                assert((i + 1) * u64::MAX == i * u64::MAX + u64::MAX) by (nonlinear_arith);
                assert(i * u64::MAX <= usize::MAX * u64::MAX) by (nonlinear_arith)
                    requires
                        i <= usize::MAX,
                ;
            }
            sum = sum + self.delays[i].delay as u128;
            i = i + 1;
        }
        assert(self.delays@.take(n as int) =~= self.delays@);
        let average: u128 = sum / (n as u128);
        assert(average <= u64::MAX) by (nonlinear_arith)
            requires
                average == sum / (n as u128),
                sum <= n * u64::MAX,
                n > 0,
        ;
        average as u64
    }
}


/// Two ascending sequences that hold the same numbers are the same sequence.
pub proof fn lemma_ascending_unique(a: Seq<u32>, b: Seq<u32>)
    requires
        ascending(a),
        ascending(b),
        a.to_set() == b.to_set(),
    ensures
        a == b,
    decreases a.len(),
{
    if a.len() == 0 {
        if b.len() > 0 {
            assert(b.contains(b[0]));
            assert(b.to_set().contains(b[0]));
            assert(a.contains(b[0]));
        }
        assert(a =~= b);
    } else {
        let x = a.last();
        assert(a.contains(x));
        assert(a.to_set().contains(x));
        assert(b.contains(x));
        let y = b.last();
        assert(b.contains(y));
        assert(b.to_set().contains(y));
        assert(a.contains(y));
        let i = choose|i: int| 0 <= i < b.len() && b[i] == x;
        let j = choose|j: int| 0 <= j < a.len() && a[j] == y;
        assert(x <= y) by {
            if i < b.len() - 1 {
                assert(b[i] < b[b.len() - 1]);
            }
        }
        assert(y <= x) by {
            if j < a.len() - 1 {
                assert(a[j] < a[a.len() - 1]);
            }
        }
        lemma_remove_holds(a, a.len() - 1);
        lemma_remove_holds(b, b.len() - 1);
        assert(a.remove(a.len() - 1) =~= a.drop_last());
        assert(b.remove(b.len() - 1) =~= b.drop_last());
        lemma_ascending_unique(a.drop_last(), b.drop_last());
        assert(a =~= a.drop_last().push(x));
        assert(b =~= b.drop_last().push(y));
    }
}

/// The numbers of a set in ascending order.
pub open spec fn sorted_of(set: Set<u32>) -> Seq<u32> {
    choose|s: Seq<u32>| ascending(s) && s.to_set() == set
}

/// An ascending sequence is the ascending order of the numbers it holds.
pub proof fn lemma_sorted_of(s: Seq<u32>)
    requires
        ascending(s),
    ensures
        sorted_of(s.to_set()) == s,
{
    let t = sorted_of(s.to_set());
    assert(ascending(s) && s.to_set() == s.to_set());
    lemma_ascending_unique(t, s);
}

} // verus!
