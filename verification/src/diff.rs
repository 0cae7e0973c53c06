//! Descriptions of edits: a single contiguous replacement (`OpaqueDiff`), an
//! ordered list of them that forms one revision (`CompoundDiff`), and the
//! result of a deletion (`DeleteOperation`).
use vstd::prelude::*;
use ropey::Rope;

use crate::text::{rope_new, rope_text};

verus! {

/// One contiguous replacement: `old_*_length` units starting at
/// `byte_index` / `char_index` were replaced by `new_*_length` units.
#[derive(Clone, Copy, Debug, PartialEq, Eq, Structural)]
pub struct OpaqueDiff {
    pub byte_index: usize,
    pub old_byte_length: usize,
    pub new_byte_length: usize,
    pub char_index: usize,
    pub old_char_length: usize,
    pub new_char_length: usize,
}

impl OpaqueDiff {
    pub fn new(
        byte_index: usize,
        old_byte_length: usize,
        new_byte_length: usize,
        char_index: usize,
        old_char_length: usize,
        new_char_length: usize,
    ) -> (diff: Self)
        ensures
            diff == (OpaqueDiff {
                byte_index,
                old_byte_length,
                new_byte_length,
                char_index,
                old_char_length,
                new_char_length,
            }),
    {
        Self {
            byte_index,
            old_byte_length,
            new_byte_length,
            char_index,
            old_char_length,
            new_char_length,
        }
    }

    pub open spec fn spec_empty() -> Self {
        OpaqueDiff {
            byte_index: 0,
            old_byte_length: 0,
            new_byte_length: 0,
            char_index: 0,
            old_char_length: 0,
            new_char_length: 0,
        }
    }

    /// The diff that changes nothing.
    pub fn empty() -> (diff: Self)
        ensures
            diff == Self::spec_empty(),
    {
        Self::new(0, 0, 0, 0, 0, 0)
    }

    pub open spec fn spec_is_empty(&self) -> bool {
        self.old_byte_length == 0 && self.new_byte_length == 0
    }

    /// Whether the diff neither removes nor inserts any byte.
    #[verifier::when_used_as_spec(spec_is_empty)]
    pub fn is_empty(&self) -> (b: bool)
        ensures
            b == self.spec_is_empty(),
    {
        self.old_byte_length == 0 && self.new_byte_length == 0
    }

    pub open spec fn spec_reverse(&self) -> Self {
        OpaqueDiff {
            byte_index: self.byte_index,
            old_byte_length: self.new_byte_length,
            new_byte_length: self.old_byte_length,
            char_index: self.char_index,
            old_char_length: self.new_char_length,
            new_char_length: self.old_char_length,
        }
    }

    /// The diff that undoes this one: old and new lengths swapped.
    pub fn reverse(&self) -> (diff: Self)
        ensures
            diff == self.spec_reverse(),
    {
        Self::new(
            self.byte_index,
            self.new_byte_length,
            self.old_byte_length,
            self.char_index,
            self.new_char_length,
            self.old_char_length,
        )
    }
}

/// The diffs of one revision, in the order they were applied to the text.
#[derive(Clone, Debug, PartialEq, Eq)]
pub struct CompoundDiff(pub Vec<OpaqueDiff>);

/// Every diff of the list is empty (or the list is).
pub open spec fn diffs_empty(diffs: Seq<OpaqueDiff>) -> bool {
    forall|i: int| 0 <= i < diffs.len() ==> (#[trigger] diffs[i]).spec_is_empty()
}

/// The reverse of a list of diffs: each diff reversed, in the opposite order.
pub open spec fn reversed_diffs(diffs: Seq<OpaqueDiff>) -> Seq<OpaqueDiff> {
    Seq::new(diffs.len(), |i: int| diffs[diffs.len() - 1 - i].spec_reverse())
}

impl CompoundDiff {
    pub open spec fn diffs(&self) -> Seq<OpaqueDiff> {
        self.0@
    }

    /// A compound diff of a single diff.
    pub fn single(diff: OpaqueDiff) -> (compound: Self)
        ensures
            compound.diffs() == seq![diff],
    {
        let mut diffs = Vec::new();
        diffs.push(diff);
        CompoundDiff(diffs)
    }

    /// A compound diff without any diff.
    pub fn empty() -> (compound: Self)
        ensures
            compound.diffs() == Seq::<OpaqueDiff>::empty(),
    {
        CompoundDiff(Vec::new())
    }

    pub open spec fn spec_is_empty(&self) -> bool {
        diffs_empty(self.diffs())
    }

    /// Whether every diff of the list is empty (or the list is).
    #[verifier::when_used_as_spec(spec_is_empty)]
    pub fn is_empty(&self) -> (b: bool)
        ensures
            b == self.spec_is_empty(),
    {
        let mut i: usize = 0;
        while i < self.0.len()
            invariant
                0 <= i <= self.0@.len(),
                forall|k: int| 0 <= k < i ==> (#[trigger] self.0@[k]).spec_is_empty(),
            decreases self.0@.len() - i,
        {
            if !self.0[i].is_empty() {
                assert(!self.diffs()[i as int].spec_is_empty());
                return false;
            }
            i = i + 1;
        }
        true
    }

    /// The compound diff that undoes this one.
    pub fn reverse(&self) -> (compound: Self)
        ensures
            compound.diffs() == reversed_diffs(self.diffs()),
    {
        let n = self.0.len();
        let mut diffs: Vec<OpaqueDiff> = Vec::new();
        let mut i: usize = 0;
        while i < n
            invariant
                n == self.0@.len(),
                0 <= i <= n,
                diffs@.len() == i,
                forall|k: int|
                    0 <= k < i ==> #[trigger] diffs@[k] == self.0@[n - 1 - k].spec_reverse(),
            decreases n - i,
        {
            diffs.push(self.0[n - 1 - i].reverse());
            i = i + 1;
        }
        let result = CompoundDiff(diffs);
        assert(result.diffs() =~= reversed_diffs(self.diffs()));
        result
    }

    /// A copy of the list.
    pub fn duplicate(&self) -> (compound: Self)
        ensures
            compound.diffs() == self.diffs(),
    {
        let mut diffs: Vec<OpaqueDiff> = Vec::new();
        let mut i: usize = 0;
        while i < self.0.len()
            invariant
                0 <= i <= self.0@.len(),
                diffs@ == self.0@.subrange(0, i as int),
            decreases self.0@.len() - i,
        {
            diffs.push(self.0[i]);
            i = i + 1;
        }
        assert(diffs@ =~= self.0@);
        CompoundDiff(diffs)
    }
}

/// What a deletion did: the diff and the chars it removed.
#[derive(Clone, Debug)]
pub struct DeleteOperation {
    pub diff: OpaqueDiff,
    pub deleted: Rope,
}

impl DeleteOperation {
    /// A deletion that removed nothing.
    pub fn empty() -> (operation: Self)
        ensures
            operation.diff == OpaqueDiff::spec_empty(),
            rope_text(operation.deleted) == Seq::<char>::empty(),
    {
        DeleteOperation { diff: OpaqueDiff::empty(), deleted: rope_new() }
    }
}

} // verus!
