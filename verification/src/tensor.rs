//! The rank-checked tensor value, and a plain arena with one use count per
//! slot.

use vstd::prelude::*;

verus! {

/// What a numeric backend supplies: a device handle and one tensor type for
/// each rank.
pub trait Backend {
    type Device;

    type Tensor1: Clone;

    type Tensor2: Clone;

    type Tensor3: Clone;

    type Tensor4: Clone;
}

/// A tensor did not have the rank that was asked for.
#[derive(Clone, Copy, Debug, PartialEq, Eq, Structural)]
pub enum TensorTypeError {
    WrongRank { expected: usize, got: usize },
}

/// A tensor of rank one to four, tagged by its rank.
#[verifier::reject_recursive_types(B)]
pub enum TensorAny<B: Backend> {
    D1(B::Tensor1),
    D2(B::Tensor2),
    D3(B::Tensor3),
    D4(B::Tensor4),
}

impl<B: Backend> TensorAny<B> {
    /// The rank that the value is tagged with.
    pub open spec fn spec_rank(&self) -> usize {
        match self {
            TensorAny::D1(_) => 1,
            TensorAny::D2(_) => 2,
            TensorAny::D3(_) => 3,
            TensorAny::D4(_) => 4,
        }
    }

    /// Whether `self` can be what cloning `model` gives: a value of the
    /// same rank whose tensor the backend gives as a clone of the tensor of
    /// `model`.
    pub open spec fn is_clone_of(&self, model: &TensorAny<B>) -> bool {
        match (model, self) {
            (TensorAny::D1(from), TensorAny::D1(to)) => cloned::<B::Tensor1>(*from, *to),
            (TensorAny::D2(from), TensorAny::D2(to)) => cloned::<B::Tensor2>(*from, *to),
            (TensorAny::D3(from), TensorAny::D3(to)) => cloned::<B::Tensor3>(*from, *to),
            (TensorAny::D4(from), TensorAny::D4(to)) => cloned::<B::Tensor4>(*from, *to),
            _ => false,
        }
    }

    /// The rank of the tensor, from 1 to 4.
    #[verifier::when_used_as_spec(spec_rank)]
    pub fn rank(&self) -> (rank: usize)
        ensures
            rank == self.spec_rank(),
            1 <= rank <= 4,
    {
        match self {
            TensorAny::D1(_) => 1,
            TensorAny::D2(_) => 2,
            TensorAny::D3(_) => 3,
            TensorAny::D4(_) => 4,
        }
    }

    /// The tensor, if its rank is 2; else the rank that was found.
    pub fn expect_d2(self) -> (tensor: Result<B::Tensor2, TensorTypeError>)
        ensures
            tensor == (match self {
                TensorAny::D2(t) => Ok::<B::Tensor2, TensorTypeError>(t),
                _ => Err(TensorTypeError::WrongRank { expected: 2, got: self.spec_rank() }),
            }),
    {
        match self {
            TensorAny::D2(t) => Ok(t),
            other => Err(TensorTypeError::WrongRank { expected: 2, got: other.rank() }),
        }
    }

    /// The tensor, if its rank is 2; else the rank that was found.
    pub fn expect_ref_d2(&self) -> (tensor: Result<&B::Tensor2, TensorTypeError>)
        ensures
            tensor == (match self {
                TensorAny::D2(t) => Ok::<&B::Tensor2, TensorTypeError>(t),
                _ => Err(TensorTypeError::WrongRank { expected: 2, got: self.spec_rank() }),
            }),
    {
        match self {
            TensorAny::D2(t) => Ok(t),
            other => Err(TensorTypeError::WrongRank { expected: 2, got: other.rank() }),
        }
    }

    /// The tensor, if its rank is 1; else the rank that was found.
    pub fn expect_d1(self) -> (tensor: Result<B::Tensor1, TensorTypeError>)
        ensures
            tensor == (match self {
                TensorAny::D1(t) => Ok::<B::Tensor1, TensorTypeError>(t),
                _ => Err(TensorTypeError::WrongRank { expected: 1, got: self.spec_rank() }),
            }),
    {
        match self {
            TensorAny::D1(t) => Ok(t),
            other => Err(TensorTypeError::WrongRank { expected: 1, got: other.rank() }),
        }
    }

    /// The tensor, if its rank is 1; else the rank that was found.
    pub fn expect_ref_d1(&self) -> (tensor: Result<&B::Tensor1, TensorTypeError>)
        ensures
            tensor == (match self {
                TensorAny::D1(t) => Ok::<&B::Tensor1, TensorTypeError>(t),
                _ => Err(TensorTypeError::WrongRank { expected: 1, got: self.spec_rank() }),
            }),
    {
        match self {
            TensorAny::D1(t) => Ok(t),
            other => Err(TensorTypeError::WrongRank { expected: 1, got: other.rank() }),
        }
    }

    /// The tensor, if its rank is 3; else the rank that was found.
    pub fn expect_d3(self) -> (tensor: Result<B::Tensor3, TensorTypeError>)
        ensures
            tensor == (match self {
                TensorAny::D3(t) => Ok::<B::Tensor3, TensorTypeError>(t),
                _ => Err(TensorTypeError::WrongRank { expected: 3, got: self.spec_rank() }),
            }),
    {
        match self {
            TensorAny::D3(t) => Ok(t),
            other => Err(TensorTypeError::WrongRank { expected: 3, got: other.rank() }),
        }
    }

    /// The tensor, if its rank is 3; else the rank that was found.
    pub fn expect_ref_d3(&self) -> (tensor: Result<&B::Tensor3, TensorTypeError>)
        ensures
            tensor == (match self {
                TensorAny::D3(t) => Ok::<&B::Tensor3, TensorTypeError>(t),
                _ => Err(TensorTypeError::WrongRank { expected: 3, got: self.spec_rank() }),
            }),
    {
        match self {
            TensorAny::D3(t) => Ok(t),
            other => Err(TensorTypeError::WrongRank { expected: 3, got: other.rank() }),
        }
    }

    /// The tensor, if its rank is 4; else the rank that was found.
    pub fn expect_d4(self) -> (tensor: Result<B::Tensor4, TensorTypeError>)
        ensures
            tensor == (match self {
                TensorAny::D4(t) => Ok::<B::Tensor4, TensorTypeError>(t),
                _ => Err(TensorTypeError::WrongRank { expected: 4, got: self.spec_rank() }),
            }),
    {
        match self {
            TensorAny::D4(t) => Ok(t),
            other => Err(TensorTypeError::WrongRank { expected: 4, got: other.rank() }),
        }
    }

    /// The tensor, if its rank is 4; else the rank that was found.
    pub fn expect_ref_d4(&self) -> (tensor: Result<&B::Tensor4, TensorTypeError>)
        ensures
            tensor == (match self {
                TensorAny::D4(t) => Ok::<&B::Tensor4, TensorTypeError>(t),
                _ => Err(TensorTypeError::WrongRank { expected: 4, got: self.spec_rank() }),
            }),
    {
        match self {
            TensorAny::D4(t) => Ok(t),
            other => Err(TensorTypeError::WrongRank { expected: 4, got: other.rank() }),
        }
    }
}

impl<B: Backend> Clone for TensorAny<B> {
    fn clone(&self) -> (copy: Self)
        ensures
            copy.is_clone_of(self),
    {
        match self {
            TensorAny::D1(t) => TensorAny::D1(t.clone()),
            TensorAny::D2(t) => TensorAny::D2(t.clone()),
            TensorAny::D3(t) => TensorAny::D3(t.clone()),
            TensorAny::D4(t) => TensorAny::D4(t.clone()),
        }
    }
}

/// Why a read from the plain arena failed, with the slot.
#[derive(Clone, Copy, Debug, PartialEq, Eq, Structural)]
pub enum ArenaError {
    NoUsesLeft(usize),
    SlotEmpty(usize),
}

/// A plain arena: each slot holds at most one value and a count of the
/// reads that are still to come.
#[verifier::reject_recursive_types(B)]
pub struct Arena<B: Backend> {
    mem: Vec<Option<TensorAny<B>>>,
    uses_left: Vec<u32>,
}

/// The plain arena as contracts see it.
#[verifier::reject_recursive_types(B)]
pub struct ArenaView<B: Backend> {
    pub mem: Seq<Option<TensorAny<B>>>,
    pub uses_left: Seq<u32>,
}

impl<B: Backend> View for Arena<B> {
    type V = ArenaView<B>;

    closed spec fn view(&self) -> ArenaView<B> {
        ArenaView { mem: self.mem@, uses_left: self.uses_left@ }
    }
}

impl<B: Backend> ArenaView<B> {
    /// Whether `slot` is a slot with a count.
    pub open spec fn has_slot(self, slot: usize) -> bool {
        slot < self.mem.len() && slot < self.uses_left.len()
    }

    /// The arena after a read of `slot`: a read that finds uses left takes
    /// one, and the last one empties the slot.
    pub open spec fn after_read(self, slot: usize) -> ArenaView<B> {
        let left = self.uses_left[slot as int];
        if left == 0 {
            self
        } else {
            ArenaView {
                mem: if left == 1 {
                    self.mem.update(slot as int, None)
                } else {
                    self.mem
                },
                uses_left: self.uses_left.update(slot as int, (left - 1) as u32),
            }
        }
    }

    /// The arena after a write to `slot`.
    pub open spec fn after_write(self, slot: usize, value: TensorAny<B>) -> ArenaView<B> {
        ArenaView { mem: self.mem.update(slot as int, Some(value)), uses_left: self.uses_left }
    }
}

impl<B: Backend> Arena<B> {
    /// An arena of `slots` empty slots with the given counts.
    pub fn new(slots: usize, use_count: Vec<u32>) -> (arena: Self)
        ensures
            arena@.uses_left == use_count@,
            arena@.mem.len() == slots,
            forall|i: int| 0 <= i < slots ==> arena@.mem[i] is None,
    {
        let mut mem: Vec<Option<TensorAny<B>>> = Vec::new();
        let mut i: usize = 0;
        while i < slots
            invariant
                i <= slots,
                mem@.len() == i,
                forall|j: int| 0 <= j < i ==> mem@[j] is None,
            decreases slots - i,
        {
            mem.push(None);
            i += 1;
        }
        Arena { mem, uses_left: use_count }
    }

    /// Reads the value in `slot`. A slot without uses left is refused and
    /// stays as it is. Else one use is taken: the last use moves the value
    /// out, an earlier one hands over a clone. An empty slot is reported
    /// after the use has been taken.
    pub fn read(&mut self, slot: usize) -> (value: Result<TensorAny<B>, ArenaError>)
        requires
            old(self)@.has_slot(slot),
        ensures
            final(self)@ == old(self)@.after_read(slot),
            old(self)@.uses_left[slot as int] == 0 ==> value == Err::<TensorAny<B>, ArenaError>(
                ArenaError::NoUsesLeft(slot),
            ),
            old(self)@.uses_left[slot as int] > 0 ==> match old(self)@.mem[slot as int] {
                None => value == Err::<TensorAny<B>, ArenaError>(ArenaError::SlotEmpty(slot)),
                Some(held) => if old(self)@.uses_left[slot as int] == 1 {
                    value == Ok::<TensorAny<B>, ArenaError>(held)
                } else {
                    value matches Ok(copy) && copy.is_clone_of(&held)
                },
            },
    {
        let left = self.uses_left[slot];
        if left <= 0 {
            return Err(ArenaError::NoUsesLeft(slot));
        }
        self.uses_left[slot] -= 1;
        if left == 1 {
            let mut held: Option<TensorAny<B>> = None;
            std::mem::swap(&mut held, &mut self.mem[slot]);
            match held {
                Some(value) => Ok(value),
                None => Err(ArenaError::SlotEmpty(slot)),
            }
        } else {
            match &self.mem[slot] {
                Some(value) => Ok(value.clone()),
                None => Err(ArenaError::SlotEmpty(slot)),
            }
        }
    }

    /// Puts `value` in `slot`, in place of what was there.
    pub fn write(&mut self, slot: usize, value: TensorAny<B>)
        requires
            slot < old(self)@.mem.len(),
        ensures
            final(self)@ == old(self)@.after_write(slot, value),
    {
        self.mem[slot] = Some(value);
    }
}

} // verus!
