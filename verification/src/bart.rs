//! The configuration of a BART model and the preparation of the inputs of
//! its decoder.
//!
//! Batches of token sequences are vectors of rows of equal length. The
//! layers of the model itself are not part of this library.

use std::collections::HashMap;
use vstd::prelude::*;
use crate::pipelines::score::{copy_of, Score, NEG_INF};

verus! {

/// The activation function of the feed-forward layers.
#[allow(non_camel_case_types)]
#[derive(Clone, Copy, Debug, PartialEq, Eq, Structural)]
pub enum Activation {
    /// Gaussian Error Linear Unit.
    gelu,
    /// Rectified Linear Unit.
    relu,
    /// Swish.
    swish,
    /// Gaussian Error Linear Unit, in its approximate form.
    gelu_new,
    /// Hyperbolic tangent.
    tanh,
}

/// The configuration of a BART model: its architecture and the defaults
/// of generation. Real-valued settings are fixed-point numbers in units
/// of a thousandth; the length penalty is a whole exponent, to which a
/// penalty that is stored as a fraction has to be rounded.
#[derive(Clone, Debug)]
pub struct BartConfig {
    pub num_labels: Option<i64>,
    pub activation_function: Option<Activation>,
    pub activation_dropout: u64,
    pub attention_dropout: u64,
    pub classif_dropout: u64,
    pub d_model: i64,
    pub decoder_attention_heads: i64,
    pub decoder_ffn_dim: i64,
    pub decoder_layerdrop: u64,
    pub decoder_layers: i64,
    pub decoder_start_token_id: Option<i64>,
    pub do_sample: bool,
    pub dropout: u64,
    pub early_stopping: bool,
    pub encoder_attention_heads: i64,
    pub encoder_ffn_dim: i64,
    pub encoder_layerdrop: u64,
    pub encoder_layers: i64,
    pub bos_token_id: Option<i64>,
    pub id2label: Option<HashMap<i64, String>>,
    pub label2id: Option<HashMap<String, i64>>,
    pub init_std: u64,
    pub is_decoder: Option<bool>,
    pub is_encoder_decoder: Option<bool>,
    pub length_penalty: u32,
    pub max_length: i64,
    pub max_position_embeddings: i64,
    pub min_length: Option<i64>,
    pub no_repeat_ngram_size: Option<i64>,
    pub num_beams: i64,
    pub num_hidden_layers: i64,
    pub num_return_sequences: i64,
    pub output_attentions: Option<bool>,
    pub output_hidden_states: Option<bool>,
    pub output_past: Option<bool>,
    pub pad_token_id: Option<i64>,
    pub repetition_penalty: u64,
    pub temperature: u64,
    pub top_k: i64,
    pub top_p: u64,
    pub vocab_size: i64,
}

/// How many of the first `n` tokens of a row are not padding.
pub open spec fn count_tokens(row: Seq<i64>, pad_token_id: i64, n: int) -> int
    decreases n,
{
    if n <= 0 {
        0
    } else {
        count_tokens(row, pad_token_id, n - 1) + if row[n - 1] != pad_token_id {
            1int
        } else {
            0int
        }
    }
}

/// Whether a row can be shifted: it holds a token that is not padding.
pub open spec fn shiftable(row: Seq<i64>, pad_token_id: i64) -> bool {
    count_tokens(row, pad_token_id, row.len() as int) >= 1
}

/// A row shifted one token to the right. The token at the position of
/// the last token, counted by the tokens that are not padding, wraps
/// around to the front, and the last entry of the row is dropped.
pub open spec fn shifted(row: Seq<i64>, pad_token_id: i64) -> Seq<i64> {
    Seq::new(
        row.len(),
        |j: int|
            if j == 0 {
                row[count_tokens(row, pad_token_id, row.len() as int) - 1]
            } else {
                row[j - 1]
            },
    )
}

proof fn lemma_count_tokens_bound(row: Seq<i64>, pad_token_id: i64, n: int)
    requires
        0 <= n <= row.len(),
    ensures
        0 <= count_tokens(row, pad_token_id, n) <= n,
    decreases n,
{
    if n > 0 {
        lemma_count_tokens_bound(row, pad_token_id, n - 1);
    }
}

/// Shifts one row to the right.
fn shift_row(row: &Vec<i64>, pad_token_id: i64) -> (out: Vec<i64>)
    requires
        shiftable(row@, pad_token_id),
    ensures
        out@ == shifted(row@, pad_token_id),
{
    let mut count: usize = 0;
    let mut i: usize = 0;
    while i < row.len()
        invariant
            i <= row.len(),
            count == count_tokens(row@, pad_token_id, i as int),
            count <= i,
        decreases row.len() - i,
    {
        if row[i] != pad_token_id {
            count += 1;
        }
        i += 1;
    }
    let mut out: Vec<i64> = Vec::new();
    out.push(row[count - 1]);
    let mut j: usize = 1;
    while j < row.len()
        invariant
            1 <= j,
            row.len() >= 1,
            j <= row.len(),
            out.len() == j,
            forall|k: int| 0 <= k < j ==> #[trigger] out[k] == shifted(row@, pad_token_id)[k],
        decreases row.len() - j,
    {
        out.push(row[j - 1]);
        j += 1;
    }
    assert(out@ =~= shifted(row@, pad_token_id));
    out
}

/// Shifts every row of the batch one token to the right, so that the
/// decoder sees at each position the token before it.
pub fn _shift_tokens_right(input_ids: &Vec<Vec<i64>>, pad_token_id: i64) -> (out: Vec<Vec<i64>>)
    requires
        forall|r: int|
            0 <= r < input_ids.len() ==> shiftable((#[trigger] input_ids[r])@, pad_token_id),
    ensures
        out.len() == input_ids.len(),
        forall|r: int|
            0 <= r < out.len() ==> (#[trigger] out[r])@ == shifted(input_ids[r]@, pad_token_id),
{
    let mut out: Vec<Vec<i64>> = Vec::new();
    let mut r: usize = 0;
    while r < input_ids.len()
        invariant
            r <= input_ids.len(),
            out.len() == r,
            forall|q: int|
                0 <= q < input_ids.len() ==> shiftable((#[trigger] input_ids[q])@, pad_token_id),
            forall|q: int|
                0 <= q < r ==> (#[trigger] out[q])@ == shifted(input_ids[q]@, pad_token_id),
        decreases input_ids.len() - r,
    {
        out.push(shift_row(&input_ids[r], pad_token_id));
        r += 1;
    }
    out
}

/// What the decoder is given besides the output of the encoder.
#[derive(Debug)]
pub struct DecoderInputs {
    /// The tokens that the decoder reads.
    pub decoder_input_ids: Vec<Vec<i64>>,
    /// For each position, whether the decoder has to ignore it; absent
    /// where no position is to be ignored.
    pub decoder_padding_mask: Option<Vec<Vec<bool>>>,
    /// For each pair of positions, what is added to the attention of the
    /// first to the second: `NEG_INF` for a later position, 0 otherwise.
    pub causal_mask: Option<Vec<Vec<Score>>>,
}

/// The positions of a row that hold the given value.
pub open spec fn positions_of(row: Seq<i64>, value: i64) -> Seq<bool> {
    Seq::new(row.len(), |j: int| row[j] == value)
}

/// Whether the mask marks, in every row, the positions that hold `value`.
pub open spec fn marks(mask: Seq<Vec<bool>>, batch: Seq<Vec<i64>>, value: i64) -> bool {
    &&& mask.len() == batch.len()
    &&& forall|r: int|
        0 <= r < mask.len() ==> (#[trigger] mask[r])@ == positions_of(batch[r]@, value)
}

/// Whether any row of the batch holds `value`.
pub open spec fn holds(batch: Seq<Vec<i64>>, value: i64) -> bool {
    exists|r: int, j: int|
        0 <= r < batch.len() && 0 <= j < batch[r].len() && #[trigger] batch[r][j] == value
}

/// The number of positions in each row of a batch: the length of its
/// first row, and 0 for a batch without rows.
pub open spec fn width_of(batch: Seq<Vec<i64>>) -> int {
    if batch.len() > 0 {
        batch[0].len() as int
    } else {
        0
    }
}

/// Row `i` of the causal mask over `length` positions.
pub open spec fn causal_row(i: int, length: int) -> Seq<Score> {
    Seq::new(
        length as nat,
        |j: int|
            if j > i {
                NEG_INF
            } else {
                0
            },
    )
}

/// Whether the mask is the causal mask over `length` positions.
pub open spec fn is_causal(mask: Seq<Vec<Score>>, length: int) -> bool {
    &&& mask.len() == length
    &&& forall|i: int| 0 <= i < mask.len() ==> (#[trigger] mask[i])@ == causal_row(i, length)
}

/// The positions of every row that hold `value`, and whether there is
/// any.
fn mark(batch: &Vec<Vec<i64>>, value: i64) -> (r: (Vec<Vec<bool>>, bool))
    ensures
        marks(r.0@, batch@, value),
        r.1 == holds(batch@, value),
{
    let mut mask: Vec<Vec<bool>> = Vec::new();
    let mut any: bool = false;
    let mut r: usize = 0;
    while r < batch.len()
        invariant
            r <= batch.len(),
            mask.len() == r,
            forall|q: int| 0 <= q < r ==> (#[trigger] mask[q])@ == positions_of(batch[q]@, value),
            any == exists|q: int, j: int|
                0 <= q < r && 0 <= j < batch[q].len() && #[trigger] batch[q][j] == value,
        decreases batch.len() - r,
    {
        let row = &batch[r];
        let mut flags: Vec<bool> = Vec::new();
        let mut found: bool = false;
        let mut j: usize = 0;
        while j < row.len()
            invariant
                j <= row.len(),
                flags.len() == j,
                forall|k: int| 0 <= k < j ==> #[trigger] flags[k] == (row[k] == value),
                found == exists|k: int| 0 <= k < j && #[trigger] row[k] == value,
            decreases row.len() - j,
        {
            let hit: bool = row[j] == value;
            flags.push(hit);
            proof {
                if found {
                    let k = choose|k: int| 0 <= k < j && #[trigger] row[k] == value;
                    assert(0 <= k < j + 1 && row[k] == value);
                }
                if hit {
                    assert(row[j as int] == value);
                }
                if exists|k: int| 0 <= k < j + 1 && #[trigger] row[k] == value {
                    let k = choose|k: int| 0 <= k < j + 1 && #[trigger] row[k] == value;
                    if k < j {
                        assert(row[k] == value);
                    }
                }
            }
            found = found || hit;
            j += 1;
        }
        assert(flags@ =~= positions_of(row@, value));
        proof {
            let before = any;
            if before {
                let (q, k) = choose|q: int, k: int|
                    0 <= q < r && 0 <= k < batch[q].len() && #[trigger] batch[q][k] == value;
                assert(0 <= q < r + 1 && batch[q][k] == value);
            }
            if found {
                let k = choose|k: int| 0 <= k < row.len() && #[trigger] row[k] == value;
                assert(batch[r as int][k] == value);
            }
            if exists|q: int, k: int|
                0 <= q < r + 1 && 0 <= k < batch[q].len() && #[trigger] batch[q][k] == value {
                let (q, k) = choose|q: int, k: int|
                    0 <= q < r + 1 && 0 <= k < batch[q].len() && #[trigger] batch[q][k] == value;
                if q < r {
                    assert(batch[q][k] == value);
                } else {
                    assert(row[k] == value);
                }
            }
        }
        any = any || found;
        mask.push(flags);
        r += 1;
    }
    (mask, any)
}

/// The causal mask over `length` positions.
fn causal_mask(length: usize) -> (mask: Vec<Vec<Score>>)
    ensures
        is_causal(mask@, length as int),
{
    let mut mask: Vec<Vec<Score>> = Vec::new();
    let mut i: usize = 0;
    while i < length
        invariant
            i <= length,
            mask.len() == i,
            forall|q: int| 0 <= q < i ==> (#[trigger] mask[q])@ == causal_row(q, length as int),
        decreases length - i,
    {
        let mut row: Vec<Score> = Vec::new();
        let mut j: usize = 0;
        while j < length
            invariant
                j <= length,
                row.len() == j,
                forall|k: int|
                    0 <= k < j ==> #[trigger] row[k] == causal_row(i as int, length as int)[k],
            decreases length - j,
        {
            row.push(if j > i {
                NEG_INF
            } else {
                0
            });
            j += 1;
        }
        assert(row@ =~= causal_row(i as int, length as int));
        mask.push(row);
        i += 1;
    }
    mask
}

/// A copy of a batch.
fn copy_batch(batch: &Vec<Vec<i64>>) -> (out: Vec<Vec<i64>>)
    ensures
        out.len() == batch.len(),
        forall|r: int| 0 <= r < out.len() ==> (#[trigger] out[r])@ == batch[r]@,
{
    let mut out: Vec<Vec<i64>> = Vec::new();
    let mut r: usize = 0;
    while r < batch.len()
        invariant
            r <= batch.len(),
            out.len() == r,
            forall|q: int| 0 <= q < r ==> (#[trigger] out[q])@ == batch[q]@,
        decreases batch.len() - r,
    {
        out.push(copy_of(&batch[r]));
        r += 1;
    }
    out
}

/// Whether two batches hold the same rows.
pub open spec fn same_batch(a: Seq<Vec<i64>>, b: Seq<Vec<i64>>) -> bool {
    &&& a.len() == b.len()
    &&& forall|r: int| 0 <= r < a.len() ==> (#[trigger] a[r])@ == b[r]@
}

/// Whether the rows of `a` are the rows of `b`, each shifted to the right.
pub open spec fn shifted_batch(a: Seq<Vec<i64>>, b: Seq<Vec<i64>>, pad_token_id: i64) -> bool {
    &&& a.len() == b.len()
    &&& forall|r: int| 0 <= r < a.len() ==> (#[trigger] a[r])@ == shifted(b[r]@, pad_token_id)
}

/// Prepares the inputs of the decoder for training or scoring. The
/// decoder reads the given tokens, or without them the inputs of the
/// encoder shifted to the right. It ignores the positions where a given
/// attention mask is 0, or without one the positions of its own input
/// that hold the padding token, if there are any. The causal mask covers
/// as many positions as the rows of the inputs of the encoder have.
pub fn _prepare_bart_decoder_inputs(
    pad_token_id: i64,
    input_ids: &Vec<Vec<i64>>,
    decoder_input_ids: Option<&Vec<Vec<i64>>>,
    decoder_padding_mask: Option<&Vec<Vec<i64>>>,
) -> (r: DecoderInputs)
    requires
        decoder_input_ids is None ==> forall|q: int|
            0 <= q < input_ids.len() ==> shiftable((#[trigger] input_ids[q])@, pad_token_id),
    ensures
        match decoder_input_ids {
            Some(given) => same_batch(r.decoder_input_ids@, given@),
            None => shifted_batch(r.decoder_input_ids@, input_ids@, pad_token_id),
        },
        match decoder_padding_mask {
            Some(given) => r.decoder_padding_mask matches Some(mask) && marks(mask@, given@, 0),
            None => if holds(r.decoder_input_ids@, pad_token_id) {
                r.decoder_padding_mask matches Some(mask) && marks(
                    mask@,
                    r.decoder_input_ids@,
                    pad_token_id,
                )
            } else {
                r.decoder_padding_mask is None
            },
        },
        r.causal_mask matches Some(mask) && is_causal(mask@, width_of(input_ids@)),
{
    let decoder_input_ids: Vec<Vec<i64>> = match decoder_input_ids {
        Some(given) => copy_batch(given),
        None => _shift_tokens_right(input_ids, pad_token_id),
    };
    let decoder_padding_mask: Option<Vec<Vec<bool>>> = match decoder_padding_mask {
        Some(given) => Some(mark(given, 0).0),
        None => {
            let (mask, any) = mark(&decoder_input_ids, pad_token_id);
            if any {
                Some(mask)
            } else {
                None
            }
        },
    };
    let length: usize = if input_ids.len() > 0 {
        input_ids[0].len()
    } else {
        0
    };
    DecoderInputs {
        decoder_input_ids,
        decoder_padding_mask,
        causal_mask: Some(causal_mask(length)),
    }
}

/// The part of a BART model that decides what its decoder is given.
#[derive(Clone, Copy, Debug)]
pub struct BartModel {
    /// Whether the model generates, and is fed the tokens generated so
    /// far, rather than being trained or scored.
    pub generation_mode: bool,
    /// The token that pads a row of a batch.
    pub pad_token_id: i64,
}

impl BartModel {
    /// Builds the model for a configuration. Without a padding token in
    /// the configuration, token 1 pads.
    pub fn new(config: &BartConfig, generation_mode: bool) -> (model: BartModel)
        ensures
            model.generation_mode == generation_mode,
            model.pad_token_id == match config.pad_token_id {
                Some(value) => value,
                None => 1,
            },
    {
        let pad_token_id: i64 = match config.pad_token_id {
            Some(value) => value,
            None => 1,
        };
        BartModel { generation_mode, pad_token_id }
    }

    /// What the decoder is given in a forward pass. When generating, it
    /// reads the given tokens as they are, without any mask; otherwise its
    /// inputs are prepared from those of the encoder.
    pub fn forward_t(
        &self,
        input_ids: &Vec<Vec<i64>>,
        decoder_input_ids: Option<&Vec<Vec<i64>>>,
        decoder_attention_mask: Option<&Vec<Vec<i64>>>,
    ) -> (r: DecoderInputs)
        requires
            self.generation_mode ==> decoder_input_ids is Some,
            !self.generation_mode && decoder_input_ids is None ==> forall|q: int|
                0 <= q < input_ids.len() ==> shiftable(
                    (#[trigger] input_ids[q])@,
                    self.pad_token_id,
                ),
        ensures
            decoder_input_ids matches Some(given) ==> same_batch(r.decoder_input_ids@, given@),
            self.generation_mode ==> r.decoder_padding_mask is None && r.causal_mask is None,
            !self.generation_mode ==> {
                &&& decoder_input_ids is None ==> shifted_batch(
                    r.decoder_input_ids@,
                    input_ids@,
                    self.pad_token_id,
                )
                &&& match decoder_attention_mask {
                    Some(given) => r.decoder_padding_mask matches Some(mask) && marks(
                        mask@,
                        given@,
                        0,
                    ),
                    None => if holds(r.decoder_input_ids@, self.pad_token_id) {
                        r.decoder_padding_mask matches Some(mask) && marks(
                            mask@,
                            r.decoder_input_ids@,
                            self.pad_token_id,
                        )
                    } else {
                        r.decoder_padding_mask is None
                    },
                }
                &&& r.causal_mask matches Some(mask) && is_causal(mask@, width_of(input_ids@))
            },
    {
        if self.generation_mode {
            match decoder_input_ids {
                Some(given) => DecoderInputs {
                    decoder_input_ids: copy_batch(given),
                    decoder_padding_mask: None,
                    causal_mask: None,
                },
                None => DecoderInputs {
                    decoder_input_ids: Vec::new(),
                    decoder_padding_mask: None,
                    causal_mask: None,
                },
            }
        } else {
            _prepare_bart_decoder_inputs(
                self.pad_token_id,
                input_ids,
                decoder_input_ids,
                decoder_attention_mask,
            )
        }
    }
}

} // verus!
