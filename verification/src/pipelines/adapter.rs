//! What the decoding engine asks of its collaborators: a model that scores
//! the next token of every live hypothesis and keeps cached state for
//! each, and a numeric backend that normalises scores and draws at random.

use vstd::prelude::*;
use super::score::{copy_of, Score, TokenId};

verus! {

/// A fault reported by the model or the numeric backend, or found in what
/// they handed back. It ends the generation for the current input.
#[derive(Clone, Copy, Debug, PartialEq, Eq, Structural)]
pub enum BackendError {
    /// A result does not have one row for each live hypothesis, or a row
    /// does not have one entry for each token of the vocabulary.
    DimensionMismatch,
    /// A score that should be a log-probability is above 0.
    InvalidScore,
    /// A drawn token is outside the vocabulary or carries no probability
    /// mass.
    InvalidDraw,
    /// The device failed.
    Device,
}

/// A model behind a uniform stepping interface. It owns the cached state
/// of the decoder, one slot for each live hypothesis; the engine only
/// names the slots to keep. Nothing is assumed of the rows that it
/// returns: the engine checks them.
///
/// A model says of itself which prefix it starts from for an input, how
/// many tokens its vocabulary has and which token ends a sequence: that
/// is what `prefix_for`, `vocabulary` and `end_marker` state. They are
/// never called. What they state does not change while the model is
/// used, and `init`, `vocab_size` and `eos_token_id` are held to it.
/// Of a model that does not keep to what it says of itself, nothing that
/// is stated of generation holds.
pub trait ModelAdapter: Sized {
    /// The tokens that every hypothesis for `input` starts from: the
    /// input itself for a causal model, the start of the target sequence
    /// for an encoder-decoder.
    spec fn prefix_for(&self, input: &Vec<TokenId>) -> Vec<TokenId>;

    /// The number of tokens in the vocabulary of the model.
    spec fn vocabulary(&self) -> usize;

    /// The token with which the model ends a sequence, if it has one.
    spec fn end_marker(&self) -> Option<TokenId>;

    /// The number of tokens in the vocabulary of the model.
    fn vocab_size(&self) -> (size: usize)
        ensures
            size == self.vocabulary(),
    ;

    /// The token with which the model ends a sequence, if it has one.
    fn eos_token_id(&self) -> (eos: Option<TokenId>)
        ensures
            eos == self.end_marker(),
    ;

    /// Prepares `slots` empty slots for one input and returns the tokens
    /// that every hypothesis starts from.
    fn init(&mut self, input: &Vec<TokenId>, slots: usize) -> (r: Result<
        Vec<TokenId>,
        BackendError,
    >)
        ensures
            final(self).vocabulary() == old(self).vocabulary(),
            final(self).end_marker() == old(self).end_marker(),
            forall|other: Vec<TokenId>|
                (#[trigger] final(self).prefix_for(&other))@ == old(self).prefix_for(&other)@,
            r matches Ok(prefix) ==> prefix@ == old(self).prefix_for(input)@,
    ;

    /// Feeds each slot the tokens that it has not seen yet and returns the
    /// log-probabilities of the next token, one row for each slot.
    fn step(&mut self, tails: &Vec<Vec<TokenId>>) -> (r: Result<Vec<Vec<Score>>, BackendError>)
        ensures
            final(self).vocabulary() == old(self).vocabulary(),
            final(self).end_marker() == old(self).end_marker(),
            forall|other: Vec<TokenId>|
                (#[trigger] final(self).prefix_for(&other))@ == old(self).prefix_for(&other)@,
    ;

    /// Rearranges the slots: slot `i` takes over the state that slot
    /// `permutation[i]` held before, and there are as many slots afterwards
    /// as the permutation has entries.
    fn reorder(&mut self, permutation: &Vec<usize>) -> (r: Result<(), BackendError>)
        ensures
            final(self).vocabulary() == old(self).vocabulary(),
            final(self).end_marker() == old(self).end_marker(),
            forall|other: Vec<TokenId>|
                (#[trigger] final(self).prefix_for(&other))@ == old(self).prefix_for(&other)@,
    ;
}

/// Whether two states of a model say the same of the model: the same
/// prefix for every input, the same vocabulary and the same end marker.
pub open spec fn same_model<M: ModelAdapter>(before: M, after: M) -> bool {
    &&& after.vocabulary() == before.vocabulary()
    &&& after.end_marker() == before.end_marker()
    &&& forall|input: Vec<TokenId>|
        (#[trigger] after.prefix_for(&input))@ == before.prefix_for(&input)@
}

/// The numeric operations that the engine cannot do in whole numbers.
/// Nothing is assumed of what they return: the engine checks it.
pub trait TensorBackend {
    /// The probability mass of each token under the given scores, as
    /// weights of any common scale.
    fn softmax(&mut self, scores: &Vec<Score>) -> Result<Vec<u32>, BackendError>;

    /// A token drawn at random with the given weights.
    fn draw(&mut self, weights: &Vec<u32>) -> Result<usize, BackendError>;
}

/// A model whose scores for the next token depend on the last token
/// alone: row `t` of the table holds the log-probabilities of the tokens
/// that may follow token `t`. It continues the input itself, and its
/// cached state for a slot is the tokens that the slot has been fed.
#[derive(Debug)]
pub struct TableModel {
    /// For each token, the log-probabilities of its successors.
    pub table: Vec<Vec<Score>>,
    /// The token that ends a sequence, if there is one.
    pub eos_token_id: Option<TokenId>,
    /// For each slot, the tokens that it has been fed.
    pub slots: Vec<Vec<TokenId>>,
}

impl TableModel {
    /// For each slot, the tokens that its cached state was computed from.
    pub open spec fn cache(&self) -> Seq<Seq<TokenId>> {
        self.slots@.map_values(|slot: Vec<TokenId>| slot@)
    }

    /// Whether the last of the tokens names a row of the table.
    pub open spec fn names_row(&self, fed: Seq<TokenId>) -> bool {
        fed.len() > 0 && 0 <= fed.last() < self.table.len()
    }

    /// Whether there is a tail for each slot, and each slot can be scored
    /// once it has been fed its tail.
    pub open spec fn can_step(&self, tails: Seq<Vec<TokenId>>) -> bool {
        &&& tails.len() == self.slots.len()
        &&& forall|i: int|
            0 <= i < tails.len() ==> self.names_row(#[trigger] self.cache()[i] + tails[i]@)
    }

    /// Whether every entry of the permutation names a slot.
    pub open spec fn can_reorder(&self, permutation: Seq<usize>) -> bool {
        forall|i: int| 0 <= i < permutation.len() ==> #[trigger] permutation[i] < self.slots.len()
    }

    /// A model with the given table and no slot.
    pub fn new(table: Vec<Vec<Score>>, eos_token_id: Option<TokenId>) -> (model: TableModel)
        ensures
            model.table == table,
            model.eos_token_id == eos_token_id,
            model.slots@.len() == 0,
    {
        TableModel { table, eos_token_id, slots: Vec::new() }
    }
}

impl ModelAdapter for TableModel {
    open spec fn prefix_for(&self, input: &Vec<TokenId>) -> Vec<TokenId> {
        *input
    }

    open spec fn vocabulary(&self) -> usize {
        self.table.len()
    }

    open spec fn end_marker(&self) -> Option<TokenId> {
        self.eos_token_id
    }

    fn vocab_size(&self) -> (size: usize)
        ensures
            size == self.table.len(),
    {
        self.table.len()
    }

    fn eos_token_id(&self) -> (eos: Option<TokenId>)
        ensures
            eos == self.eos_token_id,
    {
        self.eos_token_id
    }

    /// Never fails: the prefix is the input, and every slot is empty.
    fn init(&mut self, input: &Vec<TokenId>, slots: usize) -> (r: Result<
        Vec<TokenId>,
        BackendError,
    >)
        ensures
            r matches Ok(prefix) && prefix@ == input@,
            final(self).table == old(self).table,
            final(self).eos_token_id == old(self).eos_token_id,
            final(self).cache() == Seq::new(slots as nat, |i: int| Seq::<TokenId>::empty()),
    {
        let mut fresh: Vec<Vec<TokenId>> = Vec::new();
        let mut i: usize = 0;
        while i < slots
            invariant
                i <= slots,
                fresh.len() == i,
                forall|q: int| 0 <= q < i ==> (#[trigger] fresh[q])@ == Seq::<TokenId>::empty(),
            decreases slots - i,
        {
            let slot: Vec<TokenId> = Vec::new();
            assert(slot@ =~= Seq::<TokenId>::empty());
            fresh.push(slot);
            i += 1;
        }
        self.slots = fresh;
        assert(self.cache() =~= Seq::new(slots as nat, |i: int| Seq::<TokenId>::empty()));
        Ok(copy_of(input))
    }

    /// Succeeds where there is a tail for each slot and the last token fed
    /// to each slot names a row of the table; the row of slot `i` is then
    /// the row of that token. On a fault nothing changes.
    fn step(&mut self, tails: &Vec<Vec<TokenId>>) -> (r: Result<Vec<Vec<Score>>, BackendError>)
        ensures
            final(self).table == old(self).table,
            final(self).eos_token_id == old(self).eos_token_id,
            r is Ok <==> old(self).can_step(tails@),
            r matches Ok(rows) ==> {
                &&& rows.len() == tails.len()
                &&& final(self).cache().len() == tails.len()
                &&& forall|i: int|
                    0 <= i < tails.len() ==> {
                        let fed = #[trigger] final(self).cache()[i];
                        fed == old(self).cache()[i] + tails[i]@ && rows[i]@ == old(
                            self,
                        ).table[fed.last() as int]@
                    }
            },
            r matches Err(e) ==> e == BackendError::DimensionMismatch && *final(self) == *old(self),
    {
        if tails.len() != self.slots.len() {
            return Err(BackendError::DimensionMismatch);
        }
        let mut grown: Vec<Vec<TokenId>> = Vec::new();
        let mut rows: Vec<Vec<Score>> = Vec::new();
        let mut i: usize = 0;
        while i < tails.len()
            invariant
                i <= tails.len(),
                tails.len() == self.slots.len(),
                self == old(self),
                grown.len() == i,
                rows.len() == i,
                forall|q: int|
                    0 <= q < i ==> (#[trigger] grown[q])@ == self.slots[q]@ + tails[q]@,
                forall|q: int|
                    0 <= q < i ==> self.names_row((#[trigger] grown[q])@) && rows[q]@
                        == self.table[grown[q]@.last() as int]@,
            decreases tails.len() - i,
        {
            let mut fed: Vec<TokenId> = copy_of(&self.slots[i]);
            let tail = &tails[i];
            let mut j: usize = 0;
            while j < tail.len()
                invariant
                    j <= tail.len(),
                    i < tails.len(),
                    tails.len() == self.slots.len(),
                    fed@ == self.slots[i as int]@ + tail@.take(j as int),
                decreases tail.len() - j,
            {
                fed.push(tail[j]);
                assert(fed@ =~= self.slots[i as int]@ + tail@.take(j + 1));
                j += 1;
            }
            assert(tail@.take(tail.len() as int) =~= tail@);
            assert(self.cache()[i as int] == self.slots[i as int]@);
            if fed.len() == 0 {
                return Err(BackendError::DimensionMismatch);
            }
            let last: TokenId = fed[fed.len() - 1];
            if last < 0 || last as u64 >= self.table.len() as u64 {
                return Err(BackendError::DimensionMismatch);
            }
            rows.push(copy_of(&self.table[last as usize]));
            grown.push(fed);
            i += 1;
        }
        self.slots = grown;
        assert(self.cache().len() == tails.len());
        assert forall|q: int| 0 <= q < tails.len() implies #[trigger] self.cache()[q] == old(
            self,
        ).cache()[q] + tails[q]@ by {
            assert(self.cache()[q] == self.slots[q]@);
            assert(old(self).cache()[q] == old(self).slots[q]@);
        }
        assert forall|q: int| 0 <= q < tails.len() implies old(self).names_row(
            #[trigger] old(self).cache()[q] + tails[q]@,
        ) by {
            assert(old(self).cache()[q] == old(self).slots[q]@);
            assert(self.slots[q]@ == old(self).slots[q]@ + tails[q]@);
        }
        Ok(rows)
    }

    /// Succeeds where every entry of the permutation names a slot: slot
    /// `i` then holds what slot `permutation[i]` held before. On a fault
    /// nothing changes.
    fn reorder(&mut self, permutation: &Vec<usize>) -> (r: Result<(), BackendError>)
        ensures
            final(self).table == old(self).table,
            final(self).eos_token_id == old(self).eos_token_id,
            r is Ok <==> old(self).can_reorder(permutation@),
            r is Ok ==> final(self).cache().len() == permutation.len() && forall|i: int|
                0 <= i < permutation.len() ==> #[trigger] final(self).cache()[i] == old(
                    self,
                ).cache()[permutation[i] as int],
            r matches Err(e) ==> e == BackendError::DimensionMismatch && *final(self) == *old(self),
    {
        let mut moved: Vec<Vec<TokenId>> = Vec::new();
        let mut i: usize = 0;
        while i < permutation.len()
            invariant
                i <= permutation.len(),
                self == old(self),
                forall|q: int| 0 <= q < i ==> #[trigger] permutation[q] < self.slots.len(),
                moved.len() == i,
                forall|q: int|
                    0 <= q < i ==> (#[trigger] moved[q])@ == self.slots[permutation[q] as int]@,
            decreases permutation.len() - i,
        {
            if permutation[i] >= self.slots.len() {
                return Err(BackendError::DimensionMismatch);
            }
            moved.push(copy_of(&self.slots[permutation[i]]));
            i += 1;
        }
        self.slots = moved;
        assert forall|q: int| 0 <= q < permutation.len() implies #[trigger] self.cache()[q] == old(
            self,
        ).cache()[permutation[q] as int] by {
            assert(self.cache()[q] == self.slots[q]@);
            assert(old(self).cache()[permutation[q] as int] == old(
                self,
            ).slots[permutation[q] as int]@);
        }
        Ok(())
    }
}

} // verus!
