//! The memory arena: slots that hold a tensor between the write that
//! produces it and the read that takes its last use.

use vstd::prelude::*;

use crate::tensor::{Backend, TensorAny};

verus! {

/// Why a read from a slot failed.
#[derive(Clone, Copy, Debug, PartialEq, Eq, Structural)]
pub enum MemError {
    NoUsesLeft,
    Empty,
    CellDone,
}

/// Why a read from the arena failed, with the slot.
#[derive(Clone, Copy, Debug, PartialEq, Eq, Structural)]
pub enum ArenaError {
    NoUsesLeft(usize),
    SlotEmpty(usize),
    SlotDone(usize),
}

impl ArenaError {
    /// The arena's error for a slot's error.
    pub open spec fn of(err: MemError, slot: usize) -> ArenaError {
        match err {
            MemError::NoUsesLeft => ArenaError::NoUsesLeft(slot),
            MemError::Empty => ArenaError::SlotEmpty(slot),
            MemError::CellDone => ArenaError::SlotDone(slot),
        }
    }

    /// The arena's error for the error of the slot `slot`.
    pub fn from_mem_error(err: MemError, slot: usize) -> (error: ArenaError)
        ensures
            error == ArenaError::of(err, slot),
    {
        match err {
            MemError::NoUsesLeft => ArenaError::NoUsesLeft(slot),
            MemError::Empty => ArenaError::SlotEmpty(slot),
            MemError::CellDone => ArenaError::SlotDone(slot),
        }
    }
}

/// How a read finds a slot.
pub enum ReadKind {
    /// The uses of the slot are exhausted.
    Done,
    /// The current use has no reads left.
    Spent,
    /// This is the last read of the current use.
    Last,
    /// More reads of the current use follow.
    Shared,
}

/// A slot as contracts see it.
#[verifier::reject_recursive_types(B)]
pub struct SlotView<B: Backend> {
    /// The value in the slot, if there is one.
    pub data: Option<TensorAny<B>>,
    /// For each use of the slot, the reads that are left of it.
    pub use_counts: Seq<usize>,
    /// The use that is current.
    pub use_pointer: nat,
}

impl<B: Backend> SlotView<B> {
    /// The empty slot with the given uses ahead of it.
    pub open spec fn fresh(use_counts: Seq<usize>) -> SlotView<B> {
        SlotView { data: None, use_counts, use_pointer: 0 }
    }

    /// How a read finds the slot.
    pub open spec fn read_kind(self) -> ReadKind {
        if self.use_pointer >= self.use_counts.len() {
            ReadKind::Done
        } else if self.use_counts[self.use_pointer as int] == 0 {
            ReadKind::Spent
        } else if self.use_counts[self.use_pointer as int] == 1 {
            ReadKind::Last
        } else {
            ReadKind::Shared
        }
    }

    /// The error of a read, if it fails: the uses are exhausted, the current
    /// use has no reads left, or a read is due and the slot is empty.
    pub open spec fn read_error(self) -> Option<MemError> {
        match self.read_kind() {
            ReadKind::Done => Some(MemError::CellDone),
            ReadKind::Spent => Some(MemError::NoUsesLeft),
            _ => if self.data is None {
                Some(MemError::Empty)
            } else {
                None
            },
        }
    }

    /// The slot after a read. A read that is due takes one off the count of
    /// the current use, whether or not the slot holds a value; the last one
    /// empties the slot and makes the next use current.
    pub open spec fn after_read(self) -> SlotView<B> {
        let at = self.use_pointer as int;
        match self.read_kind() {
            ReadKind::Done => self,
            ReadKind::Spent => self,
            ReadKind::Last => SlotView {
                data: None,
                use_counts: self.use_counts.update(at, 0),
                use_pointer: self.use_pointer + 1,
            },
            ReadKind::Shared => SlotView {
                data: self.data,
                use_counts: self.use_counts.update(at, (self.use_counts[at] - 1) as usize),
                use_pointer: self.use_pointer,
            },
        }
    }

    /// Whether `got` is what a read of the slot can hand over: the error if
    /// the read fails, the value itself at the last read of a use, and a
    /// clone of the value before that.
    pub open spec fn hands_over(self, got: Result<TensorAny<B>, MemError>) -> bool {
        match self.read_error() {
            Some(error) => got == Err::<TensorAny<B>, MemError>(error),
            None => match self.read_kind() {
                ReadKind::Last => got == Ok::<TensorAny<B>, MemError>(self.data.unwrap()),
                _ => got matches Ok(copy) && copy.is_clone_of(&self.data.unwrap()),
            },
        }
    }

    /// The slot after a write.
    pub open spec fn after_write(self, value: TensorAny<B>) -> SlotView<B> {
        SlotView { data: Some(value), use_counts: self.use_counts, use_pointer: self.use_pointer }
    }

    /// A slot with one use of two reads hands over a clone and keeps the
    /// value, then hands over the value itself, and is done after that.
    pub proof fn lemma_two_reads(value: TensorAny<B>)
        ensures
            ({
                let slot = SlotView::<B>::fresh(seq![2usize]).after_write(value);
                let once = slot.after_read();
                let twice = once.after_read();
                &&& forall|got: Result<TensorAny<B>, MemError>| #[trigger]
                    slot.hands_over(got) ==> (got matches Ok(copy) && copy.is_clone_of(&value))
                &&& once.data == Some(value)
                &&& once.hands_over(Ok(value))
                &&& twice.data is None
                &&& twice.read_error() == Some(MemError::CellDone)
                &&& twice.after_read() == twice
            }),
    {
        let slot = SlotView::<B>::fresh(seq![2usize]).after_write(value);
        let once = slot.after_read();
        assert(once.use_counts[0] == 1);
    }

    /// A slot with one use of one read hands over the value itself, once,
    /// and is done after that.
    pub proof fn lemma_one_read(value: TensorAny<B>)
        ensures
            ({
                let slot = SlotView::<B>::fresh(seq![1usize]).after_write(value);
                let once = slot.after_read();
                &&& slot.hands_over(Ok(value))
                &&& once.data is None
                &&& once.read_error() == Some(MemError::CellDone)
                &&& once.after_read() == once
            }),
    {
    }

    /// A read that ends on `CellDone` or `NoUsesLeft` leaves the slot as it
    /// was, and so does every read after it: the slot fails in that way for
    /// good.
    pub proof fn lemma_refusal_is_final(self)
        requires
            self.read_error() == Some(MemError::CellDone) || self.read_error() == Some(
                MemError::NoUsesLeft,
            ),
        ensures
            self.after_read() == self,
    {
    }

    /// The last read of a use leaves the slot empty and makes the next use
    /// current, whether or not the slot held a value.
    pub proof fn lemma_last_read_empties(self)
        requires
            self.read_kind() is Last,
        ensures
            self.after_read().data is None,
            self.after_read().use_pointer == self.use_pointer + 1,
            self.after_read().use_counts.len() == self.use_counts.len(),
    {
    }

    /// Between a write and the last read of the current use, the slot holds
    /// the value that was written: a read before the last leaves it there.
    pub proof fn lemma_value_stays(self)
        requires
            self.read_kind() is Shared,
        ensures
            self.after_read().data == self.data,
            self.after_read().use_pointer == self.use_pointer,
    {
    }
}

/// One arena slot: the value, if there is one, and the reads that are still
/// to come, use by use.
#[verifier::reject_recursive_types(B)]
pub struct MemSlot<B: Backend> {
    data: Option<TensorAny<B>>,
    /// For each use of this slot, the reads until it is free.
    use_counts: Vec<usize>,
    use_pointer: usize,
}

impl<B: Backend> View for MemSlot<B> {
    type V = SlotView<B>;

    closed spec fn view(&self) -> SlotView<B> {
        SlotView {
            data: self.data,
            use_counts: self.use_counts@,
            use_pointer: self.use_pointer as nat,
        }
    }
}

impl<B: Backend> MemSlot<B> {
    /// An empty slot with the given uses ahead of it.
    pub fn new(use_counts: Vec<usize>) -> (slot: Self)
        ensures
            slot@ == SlotView::<B>::fresh(use_counts@),
    {
        Self { use_counts, data: None, use_pointer: 0 }
    }

    /// Reads the slot, which takes one read off the current use.
    ///
    /// With the uses exhausted the read fails with `CellDone`, with no reads
    /// left of the current use with `NoUsesLeft`; the slot stays as it is.
    /// The last read of a use moves the value out, and the next use becomes
    /// current; a read before that hands over a clone and leaves the value
    /// in place. If the slot is empty, such a read fails with `Empty`.
    pub fn read(&mut self) -> (value: Result<TensorAny<B>, MemError>)
        ensures
            final(self)@ == old(self)@.after_read(),
            old(self)@.hands_over(value),
    {
        if self.use_pointer >= self.use_counts.len() {
            return Err(MemError::CellDone);
        }
        let reads_left = self.use_counts[self.use_pointer];
        if reads_left == 0 {
            Err(MemError::NoUsesLeft)
        } else if reads_left == 1 {
            self.use_counts[self.use_pointer] -= 1;
            self.use_pointer += 1;
            let mut held: Option<TensorAny<B>> = None;
            std::mem::swap(&mut held, &mut self.data);
            match held {
                Some(value) => Ok(value),
                None => Err(MemError::Empty),
            }
        } else {
            self.use_counts[self.use_pointer] -= 1;
            match &self.data {
                Some(value) => Ok(value.clone()),
                None => Err(MemError::Empty),
            }
        }
    }

    /// Puts `data` in the slot, in place of what was there.
    pub fn write(&mut self, data: TensorAny<B>)
        ensures
            final(self)@ == old(self)@.after_write(data),
    {
        self.data = Some(data);
    }
}

/// The arena: one slot for each intermediate value.
#[verifier::reject_recursive_types(B)]
pub struct Arena<B: Backend> {
    mem: Vec<MemSlot<B>>,
}

impl<B: Backend> View for Arena<B> {
    type V = Seq<SlotView<B>>;

    closed spec fn view(&self) -> Seq<SlotView<B>> {
        Seq::new(self.mem@.len(), |i: int| self.mem@[i]@)
    }
}

/// The arena after the first `count` of the reads of `slots`, in order.
pub open spec fn reads<B: Backend>(arena: Seq<SlotView<B>>, slots: Seq<usize>, count: int) -> Seq<
    SlotView<B>,
>
    decreases count,
{
    if count <= 0 {
        arena
    } else {
        let before = reads(arena, slots, count - 1);
        let slot = slots[count - 1] as int;
        before.update(slot, before[slot].after_read())
    }
}

/// The place of the first read that fails among the first `upto` reads of
/// `slots`.
pub open spec fn first_failure<B: Backend>(arena: Seq<SlotView<B>>, slots: Seq<usize>, upto: int) -> Option<
    int,
>
    decreases upto,
{
    if upto <= 0 {
        None
    } else {
        match first_failure(arena, slots, upto - 1) {
            Some(at) => Some(at),
            None => if reads(arena, slots, upto - 1)[slots[upto - 1] as int].read_error() is Some {
                Some(upto - 1)
            } else {
                None
            },
        }
    }
}

/// The error of read `at` of `slots`, as the arena reports it.
pub open spec fn error_at<B: Backend>(arena: Seq<SlotView<B>>, slots: Seq<usize>, at: int) -> ArenaError {
    ArenaError::of(
        reads(arena, slots, at)[slots[at] as int].read_error().unwrap(),
        slots[at],
    )
}

/// The arena after the first `count` values have been written to the first
/// `count` of `slots`, in order.
pub open spec fn writes<B: Backend>(
    arena: Seq<SlotView<B>>,
    slots: Seq<usize>,
    values: Seq<TensorAny<B>>,
    count: int,
) -> Seq<SlotView<B>>
    decreases count,
{
    if count <= 0 {
        arena
    } else {
        let before = writes(arena, slots, values, count - 1);
        let slot = slots[count - 1] as int;
        before.update(slot, before[slot].after_write(values[count - 1]))
    }
}

/// Whether the first `count` of `slots` are slots of an arena of `size`
/// slots.
pub open spec fn slots_within(slots: Seq<usize>, count: int, size: nat) -> bool {
    count <= slots.len() && forall|i: int| 0 <= i < count ==> (#[trigger] slots[i]) < size
}

/// Reads and writes keep the number of slots.
pub proof fn lemma_same_size<B: Backend>(
    arena: Seq<SlotView<B>>,
    slots: Seq<usize>,
    values: Seq<TensorAny<B>>,
    count: int,
)
    requires
        slots_within(slots, count, arena.len()),
    ensures
        reads(arena, slots, count).len() == arena.len(),
        writes(arena, slots, values, count).len() == arena.len(),
    decreases count,
{
    if count > 0 {
        lemma_same_size(arena, slots, values, count - 1);
    }
}

impl<B: Backend> Arena<B> {
    /// The number of slots.
    pub fn len(&self) -> (n: usize)
        ensures
            n == self@.len(),
    {
        self.mem.len()
    }

    /// An arena of empty slots, one for each list of uses.
    pub fn new(use_count: Vec<Vec<usize>>) -> (arena: Self)
        ensures
            arena@.len() == use_count@.len(),
            forall|i: int|
                0 <= i < use_count@.len() ==> arena@[i] == SlotView::<B>::fresh(use_count@[i]@),
    {
        let mut mem: Vec<MemSlot<B>> = Vec::new();
        for uses in it: use_count
            invariant
                mem@.len() == it.index(),
                forall|i: int|
                    0 <= i < mem@.len() ==> (#[trigger] mem@[i])@ == SlotView::<B>::fresh(
                        it.seq()[i]@,
                    ),
        {
            mem.push(MemSlot::new(uses));
        }
        Arena { mem }
    }

    /// Reads `slot`, as the slot itself does, and reports a failure with
    /// the slot.
    pub fn read(&mut self, slot: usize) -> (value: Result<TensorAny<B>, ArenaError>)
        requires
            slot < old(self)@.len(),
        ensures
            final(self)@ == old(self)@.update(slot as int, old(self)@[slot as int].after_read()),
            match value {
                Ok(tensor) => old(self)@[slot as int].hands_over(Ok(tensor)),
                Err(error) => old(self)@[slot as int].read_error() matches Some(cause) && error
                    == ArenaError::of(cause, slot),
            },
    {
        let outcome = self.mem[slot].read();
        proof {
            assert(self@ =~= old(self)@.update(slot as int, old(self)@[slot as int].after_read()));
        }
        match outcome {
            Ok(tensor) => Ok(tensor),
            Err(error) => Err(ArenaError::from_mem_error(error, slot)),
        }
    }

    /// Puts `data` in `slot`, in place of what was there.
    pub fn write(&mut self, slot: usize, data: TensorAny<B>)
        requires
            slot < old(self)@.len(),
        ensures
            final(self)@ == old(self)@.update(
                slot as int,
                old(self)@[slot as int].after_write(data),
            ),
    {
        self.mem[slot].write(data);
        proof {
            assert(self@ =~= old(self)@.update(
                slot as int,
                old(self)@[slot as int].after_write(data),
            ));
        }
    }

    /// Reads the slots in order and stops at the first read that fails.
    /// Without a failure the values come back in the order of the slots;
    /// with one, the error of that read does.
    pub fn read_all(&mut self, slots: &[usize]) -> (values: Result<Vec<TensorAny<B>>, ArenaError>)
        requires
            slots_within(slots@, slots@.len() as int, old(self)@.len()),
        ensures
            match first_failure(old(self)@, slots@, slots@.len() as int) {
                None => {
                    &&& final(self)@ == reads(old(self)@, slots@, slots@.len() as int)
                    &&& values matches Ok(tensors)
                    &&& tensors@.len() == slots@.len()
                    &&& forall|i: int|
                        0 <= i < slots@.len() ==> reads(old(self)@, slots@, i)[slots@[i] as int].hands_over(
                            Ok(#[trigger] tensors@[i]),
                        )
                },
                Some(at) => {
                    &&& 0 <= at < slots@.len()
                    &&& final(self)@ == reads(old(self)@, slots@, at + 1)
                    &&& values == Err::<Vec<TensorAny<B>>, ArenaError>(
                        error_at(old(self)@, slots@, at),
                    )
                },
            },
    {
        let mut tensors: Vec<TensorAny<B>> = Vec::new();
        let mut i: usize = 0;
        while i < slots.len()
            invariant
                i <= slots@.len(),
                slots_within(slots@, slots@.len() as int, old(self)@.len()),
                self@.len() == old(self)@.len(),
                self@ == reads(old(self)@, slots@, i as int),
                first_failure(old(self)@, slots@, i as int) is None,
                tensors@.len() == i,
                forall|j: int|
                    0 <= j < i ==> reads(old(self)@, slots@, j)[slots@[j] as int].hands_over(
                        Ok(#[trigger] tensors@[j]),
                    ),
            decreases slots@.len() - i,
        {
            let slot = slots[i];
            let outcome = self.read(slot);
            proof {
                assert(self@ == reads(old(self)@, slots@, i + 1));
            }
            match outcome {
                Ok(tensor) => {
                    tensors.push(tensor);
                },
                Err(error) => {
                    proof {
                        assert(first_failure(old(self)@, slots@, i + 1) == Some(i as int));
                        lemma_failure_stays(old(self)@, slots@, i + 1, slots@.len() as int);
                    }
                    return Err(error);
                },
            }
            i += 1;
        }
        Ok(tensors)
    }

    /// Writes the values to the slots, pair by pair in order, as far as both
    /// lists go.
    pub fn write_all(&mut self, slots: &[usize], values: Vec<TensorAny<B>>)
        requires
            slots_within(
                slots@,
                vstd::math::min(slots@.len() as int, values@.len() as int),
                old(self)@.len(),
            ),
        ensures
            final(self)@ == writes(
                old(self)@,
                slots@,
                values@,
                vstd::math::min(slots@.len() as int, values@.len() as int),
            ),
    {
        let ghost pairs = vstd::math::min(slots@.len() as int, values@.len() as int);
        let mut i: usize = 0;
        for value in it: values
            invariant
                pairs == vstd::math::min(slots@.len() as int, it.seq().len() as int),
                slots_within(slots@, pairs, old(self)@.len()),
                self@.len() == old(self)@.len(),
                i == vstd::math::min(it.index() as int, slots@.len() as int),
                self@ == writes(old(self)@, slots@, it.seq(), i as int),
        {
            if i < slots.len() {
                self.write(slots[i], value);
                i += 1;
            }
        }
    }
}

/// Once a read has failed, it stays the first one that did.
pub proof fn lemma_failure_stays<B: Backend>(
    arena: Seq<SlotView<B>>,
    slots: Seq<usize>,
    upto: int,
    later: int,
)
    requires
        first_failure(arena, slots, upto) is Some,
        upto <= later,
    ensures
        first_failure(arena, slots, later) == first_failure(arena, slots, upto),
    decreases later - upto,
{
    if upto < later {
        lemma_failure_stays(arena, slots, upto, later - 1);
    }
}

} // verus!
