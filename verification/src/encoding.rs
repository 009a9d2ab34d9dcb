//! The `Encoding` record and its operations.
//!
//! An encoding is the tokenized form of one or two input sequences: several
//! per-token arrays (vocabulary ids, type ids, token texts, character
//! offsets, word ids, special-token mask, attention mask, sequence ids) that
//! are kept in exact alignment — every array always has the same length —
//! plus the overflow encodings spawned by truncation and the count of
//! original input sequences.
//!
//! All mutation goes through [`Encoding::truncate`] and [`Encoding::pad`];
//! everything else is a read-only coordinate query or a getter.

use vstd::prelude::*;

use crate::config::EncodingError;
use crate::config::PaddingDirection;
use crate::config::TruncationDirection;
use crate::config::TruncationStrategy;

verus! {

/// Copies a vector of plain (copyable) per-token values.
fn copy_items<T: Copy>(v: &Vec<T>) -> (r: Vec<T>)
    ensures
        r@ == v@,
{
    let mut r: Vec<T> = Vec::new();
    let mut i: usize = 0;
    while i < v.len()
        invariant
            i <= v@.len(),
            r@ == v@.subrange(0, i as int),
        decreases v@.len() - i,
    {
        r.push(v[i]);
        i = i + 1;
        proof {
            assert(r@ =~= v@.subrange(0, i as int));
        }
    }
    proof {
        assert(r@ =~= v@);
    }
    r
}

/// Copies a vector of token texts.
fn copy_strings(v: &Vec<String>) -> (r: Vec<String>)
    ensures
        r@ == v@,
{
    let mut r: Vec<String> = Vec::new();
    let mut i: usize = 0;
    while i < v.len()
        invariant
            i <= v@.len(),
            r@ == v@.subrange(0, i as int),
        decreases v@.len() - i,
    {
        r.push(v[i].clone());
        i = i + 1;
        proof {
            assert(r@ =~= v@.subrange(0, i as int));
        }
    }
    proof {
        assert(r@ =~= v@);
    }
    r
}

/// How many entries of `sids[0..i]` name sequence `s`: the rank of position
/// `i` within that sequence.
pub open spec fn count_prefix(sids: Seq<Option<u32>>, s: u32, i: int) -> int
    decreases i,
{
    if i <= 0 {
        0
    } else {
        count_prefix(sids, s, i - 1) + (if sids[i - 1] == Some(s) {
            1int
        } else {
            0int
        })
    }
}

/// How many entries of a keep-mask are true.
pub open spec fn count_true(keep: Seq<bool>) -> int
    decreases keep.len(),
{
    if keep.len() == 0 {
        0
    } else {
        count_true(keep.drop_last()) + (if keep.last() {
            1int
        } else {
            0int
        })
    }
}

/// The elements of `s` whose keep-mask entry is true, in order.
pub open spec fn select_seq<A>(s: Seq<A>, keep: Seq<bool>) -> Seq<A>
    decreases s.len(),
{
    if s.len() == 0 || keep.len() == 0 {
        Seq::empty()
    } else {
        select_seq(s.drop_last(), keep.drop_last()) + (if keep.last() {
            seq![s.last()]
        } else {
            Seq::empty()
        })
    }
}

/// The complement of a keep-mask.
pub open spec fn invert_mask(keep: Seq<bool>) -> Seq<bool> {
    Seq::new(keep.len(), |i: int| !keep[i])
}

/// Whether the token of rank `rank` (among `total` tokens of its sequence)
/// survives when only `kept` tokens of that sequence are retained, removal
/// working from the `direction` end.
pub open spec fn in_kept_window(rank: int, total: int, kept: int, direction: TruncationDirection) -> bool {
    if direction == TruncationDirection::Right {
        rank < kept
    } else {
        rank >= total - kept
    }
}

/// The number of tokens truncation keeps with `stride` duplicated into the
/// overflow chunk: a stride at or beyond `max_length` saturates to
/// `max_length`.
pub open spec fn effective_stride(stride: int, max_length: int) -> int {
    if stride <= max_length {
        stride
    } else {
        max_length
    }
}

/// How many tokens of each sequence survive `LongestFirst` truncation:
/// starting from counts `(c0, c1)`, repeatedly remove one token from the
/// currently longer sequence (ties remove from sequence 0) until `excess`
/// tokens are gone or both sequences are empty.
pub open spec fn longest_first_kept(c0: int, c1: int, excess: int) -> (int, int)
    decreases excess,
{
    if excess <= 0 {
        (c0, c1)
    } else if c1 > c0 {
        longest_first_kept(c0, c1 - 1, excess - 1)
    } else if c0 > 0 {
        longest_first_kept(c0 - 1, c1, excess - 1)
    } else {
        (c0, c1)
    }
}

/// When the excess fits in the two sequences, `LongestFirst` removes
/// exactly `excess` tokens and never overdraws either sequence.
pub proof fn lemma_longest_first_kept_total(c0: int, c1: int, excess: int)
    requires
        0 <= c0,
        0 <= c1,
        0 <= excess <= c0 + c1,
    ensures
        ({
            let k = longest_first_kept(c0, c1, excess);
            0 <= k.0 <= c0 && 0 <= k.1 <= c1 && k.0 + k.1 == c0 + c1 - excess
        }),
    decreases excess,
{
    if excess > 0 {
        if c1 > c0 {
            lemma_longest_first_kept_total(c0, c1 - 1, excess - 1);
        } else {
            lemma_longest_first_kept_total(c0 - 1, c1, excess - 1);
        }
    }
}

/// A token counts toward at most one sequence, so the two sequences'
/// token counts never exceed the total.
pub proof fn lemma_count_prefix_disjoint(sids: Seq<Option<u32>>, i: int)
    requires
        0 <= i <= sids.len(),
    ensures
        count_prefix(sids, 0, i) + count_prefix(sids, 1, i) <= i,
    decreases i,
{
    if i > 0 {
        lemma_count_prefix_disjoint(sids, i - 1);
    }
}

/// A rank is never negative and never exceeds the prefix length.
pub proof fn lemma_count_prefix_bounds(sids: Seq<Option<u32>>, s: u32, i: int)
    requires
        0 <= i <= sids.len(),
    ensures
        0 <= count_prefix(sids, s, i) <= i,
    decreases i,
{
    if i > 0 {
        lemma_count_prefix_bounds(sids, s, i - 1);
    }
}

/// Selecting by a keep-mask yields exactly `count_true(keep)` elements.
pub proof fn lemma_select_len<A>(s: Seq<A>, keep: Seq<bool>)
    requires
        s.len() == keep.len(),
    ensures
        select_seq(s, keep).len() == count_true(keep),
        0 <= count_true(keep) <= keep.len(),
    decreases s.len(),
{
    if s.len() > 0 {
        lemma_select_len(s.drop_last(), keep.drop_last());
    }
}

/// Every selected element is an element of the original sequence.
pub proof fn lemma_select_elements<A>(s: Seq<A>, keep: Seq<bool>)
    requires
        s.len() == keep.len(),
    ensures
        forall|x: int| #![trigger select_seq(s, keep)[x]]
            0 <= x < select_seq(s, keep).len() ==> s.contains(select_seq(s, keep)[x]),
    decreases s.len(),
{
    if s.len() > 0 {
        lemma_select_elements(s.drop_last(), keep.drop_last());
        assert forall|x: int| 0 <= x < select_seq(s, keep).len() implies s.contains(
            select_seq(s, keep)[x],
        ) by {
            let sub = select_seq(s.drop_last(), keep.drop_last());
            if x < sub.len() {
                assert(select_seq(s, keep)[x] == sub[x]);
                assert(s.drop_last().contains(sub[x]));
                let y = choose|y: int|
                    0 <= y < s.drop_last().len() && s.drop_last()[y] == sub[x];
                assert(s[y] == sub[x]);
            } else {
                assert(keep.last());
                assert(select_seq(s, keep)[x] == s.last());
                assert(s[s.len() - 1] == s.last());
            }
        }
    }
}

/// Runs the `LongestFirst` removal loop on the two sequence lengths.
fn compute_longest_first_kept(c0: usize, c1: usize, excess: usize) -> (r: (usize, usize))
    requires
        excess as int <= c0 as int + c1 as int,
    ensures
        r.0 as int == longest_first_kept(c0 as int, c1 as int, excess as int).0,
        r.1 as int == longest_first_kept(c0 as int, c1 as int, excess as int).1,
{
    let mut a = c0;
    let mut b = c1;
    let mut e = excess;
    while e > 0
        invariant
            e as int <= a as int + b as int,
            longest_first_kept(a as int, b as int, e as int) == longest_first_kept(
                c0 as int,
                c1 as int,
                excess as int,
            ),
        decreases e,
    {
        if b > a {
            b = b - 1;
        } else {
            proof {
                assert(a > 0);
            }
            a = a - 1;
        }
        e = e - 1;
    }
    (a, b)
}

/// Two encodings hold the same token data: equal per-token arrays, the
/// same sequence count and the same populated state.
pub open spec fn core_equiv(a: Encoding, b: Encoding) -> bool {
    &&& a.is_populated() == b.is_populated()
    &&& a.seq_count() == b.seq_count()
    &&& a.ids_seq() == b.ids_seq()
    &&& a.type_ids_seq() == b.type_ids_seq()
    &&& a.tokens_seq() == b.tokens_seq()
    &&& a.offsets_seq() == b.offsets_seq()
    &&& a.word_ids_seq() == b.word_ids_seq()
    &&& a.special_tokens_mask_seq() == b.special_tokens_mask_seq()
    &&& a.attention_mask_seq() == b.attention_mask_seq()
    &&& a.sequence_ids_seq() == b.sequence_ids_seq()
}

/// The per-token arrays of `part` are the `[lo, hi)` slice of those of
/// `whole`.
pub open spec fn arrays_are_subrange(part: Encoding, whole: Encoding, lo: int, hi: int) -> bool {
    &&& part.ids_seq() == whole.ids_seq().subrange(lo, hi)
    &&& part.type_ids_seq() == whole.type_ids_seq().subrange(lo, hi)
    &&& part.tokens_seq() == whole.tokens_seq().subrange(lo, hi)
    &&& part.offsets_seq() == whole.offsets_seq().subrange(lo, hi)
    &&& part.word_ids_seq() == whole.word_ids_seq().subrange(lo, hi)
    &&& part.special_tokens_mask_seq() == whole.special_tokens_mask_seq().subrange(lo, hi)
    &&& part.attention_mask_seq() == whole.attention_mask_seq().subrange(lo, hi)
    &&& part.sequence_ids_seq() == whole.sequence_ids_seq().subrange(lo, hi)
}

/// The per-token arrays of `part` are those of `whole` filtered by the
/// keep-mask `keep`, in order.
pub open spec fn arrays_are_selection(part: Encoding, whole: Encoding, keep: Seq<bool>) -> bool {
    &&& part.ids_seq() == select_seq(whole.ids_seq(), keep)
    &&& part.type_ids_seq() == select_seq(whole.type_ids_seq(), keep)
    &&& part.tokens_seq() == select_seq(whole.tokens_seq(), keep)
    &&& part.offsets_seq() == select_seq(whole.offsets_seq(), keep)
    &&& part.word_ids_seq() == select_seq(whole.word_ids_seq(), keep)
    &&& part.special_tokens_mask_seq() == select_seq(whole.special_tokens_mask_seq(), keep)
    &&& part.attention_mask_seq() == select_seq(whole.attention_mask_seq(), keep)
    &&& part.sequence_ids_seq() == select_seq(whole.sequence_ids_seq(), keep)
}

/// Everything a successful `pad` promises of a populated encoding: a
/// target already met leaves the encoding exactly as it is (so padding is
/// idempotent, see `lemma_pad_idempotent`); otherwise the missing tokens
/// are synthesized on the `direction` side and everything else is
/// untouched.
pub open spec fn padding_post(
    pre: Encoding,
    post: Encoding,
    target_length: int,
    pad_id: u32,
    pad_type_id: u32,
    pad_token: String,
    direction: PaddingDirection,
) -> bool {
    &&& (pre.spec_len() >= target_length ==> post == pre)
    &&& (pre.spec_len() < target_length ==> {
        let k = (target_length - pre.spec_len()) as nat;
        &&& post.is_populated()
        &&& post.seq_count() == pre.seq_count()
        &&& post.spec_len() == target_length
        &&& post.overflow_seq() == pre.overflow_seq()
        &&& direction == PaddingDirection::Right ==> {
            &&& post.ids_seq() == pre.ids_seq() + Seq::new(k, |x: int| pad_id)
            &&& post.type_ids_seq() == pre.type_ids_seq() + Seq::new(k, |x: int| pad_type_id)
            &&& post.tokens_seq() == pre.tokens_seq() + Seq::new(k, |x: int| pad_token)
            &&& post.offsets_seq() == pre.offsets_seq() + Seq::new(k, |x: int| (0usize, 0usize))
            &&& post.word_ids_seq() == pre.word_ids_seq() + Seq::new(k, |x: int| None::<u32>)
            &&& post.special_tokens_mask_seq() == pre.special_tokens_mask_seq() + Seq::new(
                k,
                |x: int| 1u32,
            )
            &&& post.attention_mask_seq() == pre.attention_mask_seq() + Seq::new(
                k,
                |x: int| 0u32,
            )
            &&& post.sequence_ids_seq() == pre.sequence_ids_seq() + Seq::new(
                k,
                |x: int| None::<u32>,
            )
        }
        &&& direction == PaddingDirection::Left ==> {
            &&& post.ids_seq() == Seq::new(k, |x: int| pad_id) + pre.ids_seq()
            &&& post.type_ids_seq() == Seq::new(k, |x: int| pad_type_id) + pre.type_ids_seq()
            &&& post.tokens_seq() == Seq::new(k, |x: int| pad_token) + pre.tokens_seq()
            &&& post.offsets_seq() == Seq::new(k, |x: int| (0usize, 0usize)) + pre.offsets_seq()
            &&& post.word_ids_seq() == Seq::new(k, |x: int| None::<u32>) + pre.word_ids_seq()
            &&& post.special_tokens_mask_seq() == Seq::new(k, |x: int| 1u32)
                + pre.special_tokens_mask_seq()
            &&& post.attention_mask_seq() == Seq::new(k, |x: int| 0u32)
                + pre.attention_mask_seq()
            &&& post.sequence_ids_seq() == Seq::new(k, |x: int| None::<u32>)
                + pre.sequence_ids_seq()
        }
    })
}

/// Padding is idempotent: once one pad to `target_length` has run, a
/// second pad with the same arguments finds the target already met and
/// leaves the encoding exactly as it is.
pub proof fn lemma_pad_idempotent(
    e1: Encoding,
    e2: Encoding,
    e3: Encoding,
    target_length: int,
    pad_id: u32,
    pad_type_id: u32,
    pad_token: String,
    direction: PaddingDirection,
)
    requires
        padding_post(e1, e2, target_length, pad_id, pad_type_id, pad_token, direction),
        padding_post(e2, e3, target_length, pad_id, pad_type_id, pad_token, direction),
    ensures
        e3 == e2,
{
    assert(e2.spec_len() >= target_length);
}

/// What a successful single-sequence truncation leaves behind: the kept
/// slice of `max_length` tokens taken from the side opposite `direction`,
/// and one new overflow entry holding the removed block together with the
/// `effective_stride` retained boundary tokens it duplicates.
pub open spec fn single_truncation_post(
    pre: Encoding,
    post: Encoding,
    max_length: int,
    stride: int,
    direction: TruncationDirection,
) -> bool {
    let n = pre.spec_len() as int;
    let s_eff = effective_stride(stride, max_length);
    let kept_lo = if direction == TruncationDirection::Right {
        0int
    } else {
        n - max_length
    };
    let kept_hi = if direction == TruncationDirection::Right {
        max_length
    } else {
        n
    };
    let over_lo = if direction == TruncationDirection::Right {
        max_length - s_eff
    } else {
        0int
    };
    let over_hi = if direction == TruncationDirection::Right {
        n
    } else {
        n - max_length + s_eff
    };
    &&& post.is_populated()
    &&& post.seq_count() == pre.seq_count()
    &&& post.spec_len() == max_length
    &&& arrays_are_subrange(post, pre, kept_lo, kept_hi)
    &&& post.overflow_seq().len() == pre.overflow_seq().len() + 1
    &&& post.overflow_seq().drop_last() == pre.overflow_seq()
    &&& ({
        let c = post.overflow_seq().last();
        &&& c.is_populated()
        &&& c.seq_count() == pre.seq_count()
        &&& c.overflow_seq().len() == 0
        &&& c.spec_len() == over_hi - over_lo
        &&& arrays_are_subrange(c, pre, over_lo, over_hi)
    })
}

/// Inverting a keep-mask flips the count of true entries.
pub proof fn lemma_count_true_invert(keep: Seq<bool>)
    ensures
        count_true(invert_mask(keep)) == keep.len() - count_true(keep),
    decreases keep.len(),
{
    if keep.len() > 0 {
        lemma_count_true_invert(keep.drop_last());
        assert(invert_mask(keep).drop_last() =~= invert_mask(keep.drop_last()));
        assert(invert_mask(keep).last() == !keep.last());
    }
}

/// What a successful pair truncation leaves behind: the tokens surviving
/// the keep-mask built from the per-sequence kept counts `(k0, k1)`, and
/// one new overflow entry holding the removed tokens in original positional
/// order.
pub open spec fn pair_truncation_post(
    pre: Encoding,
    post: Encoding,
    k0: int,
    k1: int,
    direction: TruncationDirection,
) -> bool {
    let keep = pre.pair_keep_mask(k0, k1, direction);
    &&& post.is_populated()
    &&& post.seq_count() == pre.seq_count()
    &&& arrays_are_selection(post, pre, keep)
    &&& post.overflow_seq().len() == pre.overflow_seq().len() + 1
    &&& post.overflow_seq().drop_last() == pre.overflow_seq()
    &&& ({
        let c = post.overflow_seq().last();
        &&& c.is_populated()
        &&& c.seq_count() == pre.seq_count()
        &&& c.overflow_seq().len() == 0
        &&& c.spec_len() + post.spec_len() == pre.spec_len()
        &&& arrays_are_selection(c, pre, invert_mask(keep))
    })
}

/// Everything `truncate` promises: which error comes back on which input,
/// an error leaves the encoding untouched, an encoding already within
/// `max_length` is left exactly as it is (so truncation is idempotent, see
/// `lemma_truncate_idempotent`), and on a real trim the surviving encoding
/// and the new overflow entry have exactly the shape the strategy dictates.
pub open spec fn truncation_outcome(
    pre: Encoding,
    post: Encoding,
    max_length: int,
    stride: int,
    strategy: TruncationStrategy,
    direction: TruncationDirection,
    r: Result<(), EncodingError>,
) -> bool {
    &&& (r is Err ==> post == pre)
    &&& (!pre.is_populated() ==> r == Err::<(), EncodingError>(EncodingError::UninitializedState))
    &&& (pre.is_populated() && pre.spec_len() <= max_length ==> r == Ok::<(), EncodingError>(())
        && post == pre)
    &&& (pre.is_populated() && pre.spec_len() > max_length ==> ({
        let n = pre.spec_len() as int;
        let excess = n - max_length;
        let sids = pre.sequence_ids_seq();
        let c0 = count_prefix(sids, 0, n);
        let c1 = count_prefix(sids, 1, n);
        match strategy {
            TruncationStrategy::LongestFirst => {
                if pre.seq_count() == 1 {
                    &&& r == Ok::<(), EncodingError>(())
                    &&& single_truncation_post(pre, post, max_length, stride, direction)
                } else if excess <= c0 + c1 {
                    let k = longest_first_kept(c0, c1, excess);
                    &&& r == Ok::<(), EncodingError>(())
                    &&& pair_truncation_post(pre, post, k.0, k.1, direction)
                    &&& post.spec_len() == max_length
                } else {
                    r == Err::<(), EncodingError>(EncodingError::InvalidStrategyForInput)
                }
            },
            TruncationStrategy::OnlyFirst => {
                if pre.seq_count() != 2 {
                    r == Err::<(), EncodingError>(EncodingError::InvalidStrategyForInput)
                } else if c0 >= excess {
                    &&& r == Ok::<(), EncodingError>(())
                    &&& pair_truncation_post(pre, post, c0 - excess, c1, direction)
                    &&& post.spec_len() == max_length
                } else {
                    r == Err::<(), EncodingError>(EncodingError::InvalidStrategyForInput)
                }
            },
            TruncationStrategy::OnlySecond => {
                if pre.seq_count() != 2 {
                    r == Err::<(), EncodingError>(EncodingError::InvalidStrategyForInput)
                } else if c1 >= excess {
                    &&& r == Ok::<(), EncodingError>(())
                    &&& pair_truncation_post(pre, post, c0, c1 - excess, direction)
                    &&& post.spec_len() == max_length
                } else {
                    r == Err::<(), EncodingError>(EncodingError::InvalidStrategyForInput)
                }
            },
        }
    }))
}

/// Truncation is idempotent: once one truncation to `max_length` has
/// succeeded, a second truncation with the same arguments finds the
/// encoding already within the limit and leaves it exactly as it is.
pub proof fn lemma_truncate_idempotent(
    e1: Encoding,
    e2: Encoding,
    e3: Encoding,
    max_length: int,
    stride: int,
    strategy: TruncationStrategy,
    direction: TruncationDirection,
    r1: Result<(), EncodingError>,
    r2: Result<(), EncodingError>,
)
    requires
        e1.is_populated(),
        r1 == Ok::<(), EncodingError>(()),
        truncation_outcome(e1, e2, max_length, stride, strategy, direction, r1),
        truncation_outcome(e2, e3, max_length, stride, strategy, direction, r2),
    ensures
        e3 == e2,
        r2 == Ok::<(), EncodingError>(()),
{
    if e1.spec_len() > max_length {
        assert(e2.is_populated() && e2.spec_len() == max_length);
    }
    assert(e2.is_populated() && e2.spec_len() <= max_length);
}

/// The tokenized form of one or two input sequences.
///
/// A freshly constructed (`new`) encoding is unpopulated: every operation on
/// it reports `EncodingError::UninitializedState`. A populated encoding is
/// built with [`Encoding::from_parts`] from the per-token data a tokenizer
/// produced.
pub struct Encoding {
    populated: bool,
    n_sequences: usize,
    ids: Vec<u32>,
    type_ids: Vec<u32>,
    tokens: Vec<String>,
    offsets: Vec<(usize, usize)>,
    word_ids: Vec<Option<u32>>,
    special_tokens_mask: Vec<u32>,
    attention_mask: Vec<u32>,
    sequence_ids: Vec<Option<u32>>,
    overflowing: Vec<Encoding>,
}

impl Encoding {
    /// Whether this encoding has been populated with token data.
    pub closed spec fn is_populated(self) -> bool {
        self.populated
    }

    /// The number of tokens.
    pub closed spec fn spec_len(self) -> nat {
        self.ids@.len()
    }

    /// The number of original input sequences (1 or 2).
    pub closed spec fn seq_count(self) -> nat {
        self.n_sequences as nat
    }

    /// Vocabulary id of each token.
    pub closed spec fn ids_seq(self) -> Seq<u32> {
        self.ids@
    }

    /// Type id of each token (0 or 1; which joined sequence it belongs to).
    pub closed spec fn type_ids_seq(self) -> Seq<u32> {
        self.type_ids@
    }

    /// Text form of each token.
    pub closed spec fn tokens_seq(self) -> Seq<String> {
        self.tokens@
    }

    /// Character range `(start, end)` of each token in its original input
    /// text; `(0, 0)` for tokens with no text origin.
    pub closed spec fn offsets_seq(self) -> Seq<(usize, usize)> {
        self.offsets@
    }

    /// Word id of each token, `None` for tokens with no word origin.
    pub closed spec fn word_ids_seq(self) -> Seq<Option<u32>> {
        self.word_ids@
    }

    /// 1 for tokens injected by post-processing, else 0.
    pub closed spec fn special_tokens_mask_seq(self) -> Seq<u32> {
        self.special_tokens_mask@
    }

    /// 1 for tokens a model should attend to, 0 for padding.
    pub closed spec fn attention_mask_seq(self) -> Seq<u32> {
        self.attention_mask@
    }

    /// Which logical input sequence each token came from, `None` for tokens
    /// (padding, injected specials) that belong to neither.
    pub closed spec fn sequence_ids_seq(self) -> Seq<Option<u32>> {
        self.sequence_ids@
    }

    /// The overflow encodings produced by truncation, in left-to-right
    /// original order.
    pub closed spec fn overflow_seq(self) -> Seq<Encoding> {
        self.overflowing@
    }

    /// The length invariant: every per-token array has the same length as
    /// `ids`.
    pub closed spec fn aligned(self) -> bool {
        &&& self.type_ids@.len() == self.ids@.len()
        &&& self.tokens@.len() == self.ids@.len()
        &&& self.offsets@.len() == self.ids@.len()
        &&& self.word_ids@.len() == self.ids@.len()
        &&& self.special_tokens_mask@.len() == self.ids@.len()
        &&& self.attention_mask@.len() == self.ids@.len()
        &&& self.sequence_ids@.len() == self.ids@.len()
    }

    /// Every sequence id names one of the encoding's sequences.
    pub closed spec fn sequence_ids_valid(self) -> bool {
        forall|i: int|
            0 <= i < self.sequence_ids@.len() ==> ((#[trigger] self.sequence_ids@[i]) matches Some(
                s,
            ) ==> (s as int) < self.n_sequences as int)
    }

    /// Well-formedness of the per-token data alone, without looking at the
    /// overflow list.
    pub closed spec fn token_wf(self) -> bool {
        &&& self.aligned()
        &&& self.ids@.len() <= usize::MAX
        &&& 1 <= self.n_sequences <= 2
        &&& self.sequence_ids_valid()
    }

    /// Well-formedness of the whole record: the per-token arrays are
    /// aligned, an unpopulated encoding is empty, and every overflow entry
    /// is itself a fully valid, populated encoding carrying no further
    /// overflow.
    pub closed spec fn wf(self) -> bool {
        &&& self.token_wf()
        &&& !self.populated ==> self.ids@.len() == 0 && self.overflowing@.len() == 0
        &&& forall|i: int|
            0 <= i < self.overflowing@.len() ==> {
                &&& (#[trigger] self.overflowing@[i]).token_wf()
                &&& self.overflowing@[i].is_populated()
                &&& self.overflowing@[i].overflow_seq().len() == 0
            }
    }

    /// Creates an unpopulated encoding: every operation on it reports
    /// `UninitializedState` until real token data takes its place.
    pub fn new() -> (r: Encoding)
        ensures
            r.wf(),
            !r.is_populated(),
            r.spec_len() == 0,
            r.overflow_seq().len() == 0,
    {
        Encoding {
            populated: false,
            n_sequences: 1,
            ids: Vec::new(),
            type_ids: Vec::new(),
            tokens: Vec::new(),
            offsets: Vec::new(),
            word_ids: Vec::new(),
            special_tokens_mask: Vec::new(),
            attention_mask: Vec::new(),
            sequence_ids: Vec::new(),
            overflowing: Vec::new(),
        }
    }

    /// Builds a populated encoding from the per-token data the tokenization
    /// step produced. All arrays must already be aligned, and every sequence
    /// id must name one of the `n_sequences` sequences.
    pub fn from_parts(
        ids: Vec<u32>,
        type_ids: Vec<u32>,
        tokens: Vec<String>,
        offsets: Vec<(usize, usize)>,
        word_ids: Vec<Option<u32>>,
        special_tokens_mask: Vec<u32>,
        attention_mask: Vec<u32>,
        sequence_ids: Vec<Option<u32>>,
        n_sequences: usize,
    ) -> (r: Encoding)
        requires
            type_ids@.len() == ids@.len(),
            tokens@.len() == ids@.len(),
            offsets@.len() == ids@.len(),
            word_ids@.len() == ids@.len(),
            special_tokens_mask@.len() == ids@.len(),
            attention_mask@.len() == ids@.len(),
            sequence_ids@.len() == ids@.len(),
            1 <= n_sequences <= 2,
            forall|i: int|
                0 <= i < sequence_ids@.len() ==> ((#[trigger] sequence_ids@[i]) matches Some(s)
                    ==> (s as int) < n_sequences as int),
        ensures
            r.spec_len() == ids@.len(),
            r.wf(),
            r.is_populated(),
            r.ids_seq() == ids@,
            r.type_ids_seq() == type_ids@,
            r.tokens_seq() == tokens@,
            r.offsets_seq() == offsets@,
            r.word_ids_seq() == word_ids@,
            r.special_tokens_mask_seq() == special_tokens_mask@,
            r.attention_mask_seq() == attention_mask@,
            r.sequence_ids_seq() == sequence_ids@,
            r.seq_count() == n_sequences,
            r.overflow_seq().len() == 0,
    {
        let n = ids.len();
        proof {
            assert(ids@.len() == n as nat);
        }
        Encoding {
            populated: true,
            n_sequences,
            ids,
            type_ids,
            tokens,
            offsets,
            word_ids,
            special_tokens_mask,
            attention_mask,
            sequence_ids,
            overflowing: Vec::new(),
        }
    }

    /// The number of tokens.
    pub fn get_length(&self) -> (r: Result<usize, EncodingError>)
        ensures
            self.is_populated() ==> r == Ok::<usize, EncodingError>(self.spec_len() as usize),
            !self.is_populated() ==> r == Err::<usize, EncodingError>(
                EncodingError::UninitializedState,
            ),
    {
        if self.populated {
            Ok(self.ids.len())
        } else {
            Err(EncodingError::UninitializedState)
        }
    }

    /// The number of original input sequences this encoding represents.
    pub fn get_n_sequences(&self) -> (r: Result<usize, EncodingError>)
        ensures
            self.is_populated() ==> r == Ok::<usize, EncodingError>(self.seq_count() as usize),
            !self.is_populated() ==> r == Err::<usize, EncodingError>(
                EncodingError::UninitializedState,
            ),
    {
        if self.populated {
            Ok(self.n_sequences)
        } else {
            Err(EncodingError::UninitializedState)
        }
    }
    /// Vocabulary id of each token.
    pub fn get_ids(&self) -> (r: Result<Vec<u32>, EncodingError>)
        ensures
            self.is_populated() ==> (r matches Ok(v) && v@ == self.ids_seq()),
            !self.is_populated() ==> r == Err::<Vec<u32>, EncodingError>(
                EncodingError::UninitializedState,
            ),
    {
        if self.populated {
            Ok(copy_items(&self.ids))
        } else {
            Err(EncodingError::UninitializedState)
        }
    }

    /// Type id of each token.
    pub fn get_type_ids(&self) -> (r: Result<Vec<u32>, EncodingError>)
        ensures
            self.is_populated() ==> (r matches Ok(v) && v@ == self.type_ids_seq()),
            !self.is_populated() ==> r == Err::<Vec<u32>, EncodingError>(
                EncodingError::UninitializedState,
            ),
    {
        if self.populated {
            Ok(copy_items(&self.type_ids))
        } else {
            Err(EncodingError::UninitializedState)
        }
    }

    /// Attention mask: 1 for real tokens, 0 for padding.
    pub fn get_attention_mask(&self) -> (r: Result<Vec<u32>, EncodingError>)
        ensures
            self.is_populated() ==> (r matches Ok(v) && v@ == self.attention_mask_seq()),
            !self.is_populated() ==> r == Err::<Vec<u32>, EncodingError>(
                EncodingError::UninitializedState,
            ),
    {
        if self.populated {
            Ok(copy_items(&self.attention_mask))
        } else {
            Err(EncodingError::UninitializedState)
        }
    }

    /// Special-token mask: 1 for injected tokens, 0 for tokens derived from
    /// the input text.
    pub fn get_special_tokens_mask(&self) -> (r: Result<Vec<u32>, EncodingError>)
        ensures
            self.is_populated() ==> (r matches Ok(v) && v@ == self.special_tokens_mask_seq()),
            !self.is_populated() ==> r == Err::<Vec<u32>, EncodingError>(
                EncodingError::UninitializedState,
            ),
    {
        if self.populated {
            Ok(copy_items(&self.special_tokens_mask))
        } else {
            Err(EncodingError::UninitializedState)
        }
    }

    /// Text form of each token.
    pub fn get_tokens(&self) -> (r: Result<Vec<String>, EncodingError>)
        ensures
            self.is_populated() ==> (r matches Ok(v) && v@ == self.tokens_seq()),
            !self.is_populated() ==> r == Err::<Vec<String>, EncodingError>(
                EncodingError::UninitializedState,
            ),
    {
        if self.populated {
            Ok(copy_strings(&self.tokens))
        } else {
            Err(EncodingError::UninitializedState)
        }
    }

    /// Character range of each token in its original input text.
    pub fn get_offsets(&self) -> (r: Result<Vec<(usize, usize)>, EncodingError>)
        ensures
            self.is_populated() ==> (r matches Ok(v) && v@ == self.offsets_seq()),
            !self.is_populated() ==> r == Err::<Vec<(usize, usize)>, EncodingError>(
                EncodingError::UninitializedState,
            ),
    {
        if self.populated {
            Ok(copy_items(&self.offsets))
        } else {
            Err(EncodingError::UninitializedState)
        }
    }

    /// Word id of each token.
    pub fn get_word_ids(&self) -> (r: Result<Vec<Option<u32>>, EncodingError>)
        ensures
            self.is_populated() ==> (r matches Ok(v) && v@ == self.word_ids_seq()),
            !self.is_populated() ==> r == Err::<Vec<Option<u32>>, EncodingError>(
                EncodingError::UninitializedState,
            ),
    {
        if self.populated {
            Ok(copy_items(&self.word_ids))
        } else {
            Err(EncodingError::UninitializedState)
        }
    }

    /// Which logical input sequence each token came from.
    pub fn get_sequence_ids(&self) -> (r: Result<Vec<Option<u32>>, EncodingError>)
        ensures
            self.is_populated() ==> (r matches Ok(v) && v@ == self.sequence_ids_seq()),
            !self.is_populated() ==> r == Err::<Vec<Option<u32>>, EncodingError>(
                EncodingError::UninitializedState,
            ),
    {
        if self.populated {
            Ok(copy_items(&self.sequence_ids))
        } else {
            Err(EncodingError::UninitializedState)
        }
    }

    /// What `token_to_sequence` returns: the sequence id recorded for the
    /// token, or `None` when the index is out of range or the token belongs
    /// to neither sequence.
    pub open spec fn spec_token_to_sequence(self, token: usize) -> Option<u32> {
        if (token as int) < self.sequence_ids_seq().len() {
            self.sequence_ids_seq()[token as int]
        } else {
            None
        }
    }

    /// The logical input sequence a token came from, or `None` when the
    /// index is out of range or the token (padding, injected specials)
    /// belongs to neither sequence.
    pub fn token_to_sequence(&self, token: usize) -> (r: Result<Option<u32>, EncodingError>)
        requires
            self.wf(),
        ensures
            self.is_populated() ==> r == Ok::<Option<u32>, EncodingError>(
                self.spec_token_to_sequence(token),
            ),
            !self.is_populated() ==> r == Err::<Option<u32>, EncodingError>(
                EncodingError::UninitializedState,
            ),
    {
        if !self.populated {
            return Err(EncodingError::UninitializedState);
        }
        if token < self.sequence_ids.len() {
            Ok(self.sequence_ids[token])
        } else {
            Ok(None)
        }
    }

    /// What `token_to_chars` returns: the token's sequence id and character
    /// range, or `None` when the index is out of range or the token belongs
    /// to neither sequence.
    pub open spec fn spec_token_to_chars(self, token: usize) -> Option<(u32, (usize, usize))> {
        if (token as int) < self.sequence_ids_seq().len() && (token as int)
            < self.offsets_seq().len() {
            match self.sequence_ids_seq()[token as int] {
                Some(s) => Some((s, self.offsets_seq()[token as int])),
                None => None,
            }
        } else {
            None
        }
    }

    /// The sequence id and character offsets of a token, or `None` when the
    /// index is out of range or the token belongs to neither sequence.
    pub fn token_to_chars(&self, token: usize) -> (r: Result<
        Option<(u32, (usize, usize))>,
        EncodingError,
    >)
        requires
            self.wf(),
        ensures
            self.is_populated() ==> r == Ok::<Option<(u32, (usize, usize))>, EncodingError>(
                self.spec_token_to_chars(token),
            ),
            !self.is_populated() ==> r == Err::<Option<(u32, (usize, usize))>, EncodingError>(
                EncodingError::UninitializedState,
            ),
    {
        if !self.populated {
            return Err(EncodingError::UninitializedState);
        }
        if token < self.sequence_ids.len() {
            match self.sequence_ids[token] {
                Some(s) => Ok(Some((s, self.offsets[token]))),
                None => Ok(None),
            }
        } else {
            Ok(None)
        }
    }

    /// What `token_to_word` returns: the token's sequence id and word id,
    /// or `None` when the index is out of range, the token has no word
    /// origin, or it belongs to neither sequence.
    pub open spec fn spec_token_to_word(self, token: usize) -> Option<(u32, u32)> {
        if (token as int) < self.sequence_ids_seq().len() && (token as int)
            < self.word_ids_seq().len() {
            match (self.sequence_ids_seq()[token as int], self.word_ids_seq()[token as int]) {
                (Some(s), Some(w)) => Some((s, w)),
                _ => None,
            }
        } else {
            None
        }
    }

    /// The sequence id and word id of a token, or `None` when the index is
    /// out of range, the token has no word origin, or it belongs to neither
    /// sequence.
    pub fn token_to_word(&self, token: usize) -> (r: Result<Option<(u32, u32)>, EncodingError>)
        requires
            self.wf(),
        ensures
            self.is_populated() ==> r == Ok::<Option<(u32, u32)>, EncodingError>(
                self.spec_token_to_word(token),
            ),
            !self.is_populated() ==> r == Err::<Option<(u32, u32)>, EncodingError>(
                EncodingError::UninitializedState,
            ),
    {
        if !self.populated {
            return Err(EncodingError::UninitializedState);
        }
        if token < self.sequence_ids.len() {
            match (self.sequence_ids[token], self.word_ids[token]) {
                (Some(s), Some(w)) => Ok(Some((s, w))),
                _ => Ok(None),
            }
        } else {
            Ok(None)
        }
    }
    /// The keep-mask a pair truncation applies when `k0` tokens of sequence
    /// 0 and `k1` tokens of sequence 1 survive: a token survives when it
    /// belongs to neither sequence, or when its rank within its sequence
    /// falls in the kept window for `direction`.
    pub open spec fn pair_keep_mask(self, k0: int, k1: int, direction: TruncationDirection) -> Seq<
        bool,
    > {
        let sids = self.sequence_ids_seq();
        Seq::new(
            sids.len(),
            |i: int|
                match sids[i] {
                    None => true,
                    Some(s) => if s == 0 {
                        in_kept_window(
                            count_prefix(sids, 0, i),
                            count_prefix(sids, 0, sids.len() as int),
                            k0,
                            direction,
                        )
                    } else {
                        in_kept_window(
                            count_prefix(sids, 1, i),
                            count_prefix(sids, 1, sids.len() as int),
                            k1,
                            direction,
                        )
                    },
                },
        )
    }

    /// Copies the `[start, end)` token slice into a fresh, populated
    /// encoding with no overflow.
    fn slice_range(&self, start: usize, end: usize) -> (r: Encoding)
        requires
            self.token_wf(),
            start <= end,
            end as int <= self.spec_len(),
        ensures
            r.token_wf(),
            r.is_populated(),
            r.seq_count() == self.seq_count(),
            r.overflow_seq().len() == 0,
            r.spec_len() == end - start,
            arrays_are_subrange(r, *self, start as int, end as int),
    {
        let mut ids: Vec<u32> = Vec::new();
        let mut type_ids: Vec<u32> = Vec::new();
        let mut tokens: Vec<String> = Vec::new();
        let mut offsets: Vec<(usize, usize)> = Vec::new();
        let mut word_ids: Vec<Option<u32>> = Vec::new();
        let mut special: Vec<u32> = Vec::new();
        let mut attention: Vec<u32> = Vec::new();
        let mut sequence_ids: Vec<Option<u32>> = Vec::new();
        let mut i: usize = start;
        while i < end
            invariant
                self.token_wf(),
                start <= i <= end,
                end as int <= self.spec_len(),
                ids@ == self.ids@.subrange(start as int, i as int),
                type_ids@ == self.type_ids@.subrange(start as int, i as int),
                tokens@ == self.tokens@.subrange(start as int, i as int),
                offsets@ == self.offsets@.subrange(start as int, i as int),
                word_ids@ == self.word_ids@.subrange(start as int, i as int),
                special@ == self.special_tokens_mask@.subrange(start as int, i as int),
                attention@ == self.attention_mask@.subrange(start as int, i as int),
                sequence_ids@ == self.sequence_ids@.subrange(start as int, i as int),
            decreases end - i,
        {
            ids.push(self.ids[i]);
            type_ids.push(self.type_ids[i]);
            tokens.push(self.tokens[i].clone());
            offsets.push(self.offsets[i]);
            word_ids.push(self.word_ids[i]);
            special.push(self.special_tokens_mask[i]);
            attention.push(self.attention_mask[i]);
            sequence_ids.push(self.sequence_ids[i]);
            i = i + 1;
            proof {
                assert(ids@ =~= self.ids@.subrange(start as int, i as int));
                assert(type_ids@ =~= self.type_ids@.subrange(start as int, i as int));
                assert(tokens@ =~= self.tokens@.subrange(start as int, i as int));
                assert(offsets@ =~= self.offsets@.subrange(start as int, i as int));
                assert(word_ids@ =~= self.word_ids@.subrange(start as int, i as int));
                assert(special@ =~= self.special_tokens_mask@.subrange(start as int, i as int));
                assert(attention@ =~= self.attention_mask@.subrange(start as int, i as int));
                assert(sequence_ids@ =~= self.sequence_ids@.subrange(start as int, i as int));
            }
        }
        let r = Encoding {
            populated: true,
            n_sequences: self.n_sequences,
            ids,
            type_ids,
            tokens,
            offsets,
            word_ids,
            special_tokens_mask: special,
            attention_mask: attention,
            sequence_ids,
            overflowing: Vec::new(),
        };
        proof {
            assert forall|x: int| 0 <= x < r.sequence_ids@.len() implies ((
            #[trigger] r.sequence_ids@[x]) matches Some(s) ==> (s as int)
                < r.n_sequences as int) by {
                assert(r.sequence_ids@[x] == self.sequence_ids@[start as int + x]);
            }
        }
        r
    }

    /// Counts the tokens recorded as belonging to `sequence_id`.
    fn count_sequence_tokens(&self, sequence_id: u32) -> (r: usize)
        requires
            self.token_wf(),
        ensures
            r as int == count_prefix(
                self.sequence_ids_seq(),
                sequence_id,
                self.spec_len() as int,
            ),
            r as int <= self.spec_len(),
    {
        let n = self.sequence_ids.len();
        let mut cnt: usize = 0;
        let mut i: usize = 0;
        while i < n
            invariant
                self.token_wf(),
                i <= n,
                n == self.sequence_ids@.len(),
                cnt <= i,
                cnt as int == count_prefix(self.sequence_ids_seq(), sequence_id, i as int),
            decreases n - i,
        {
            let m = match self.sequence_ids[i] {
                Some(s) => s == sequence_id,
                None => false,
            };
            if m {
                cnt = cnt + 1;
            }
            i = i + 1;
            proof {
                assert(count_prefix(self.sequence_ids_seq(), sequence_id, i as int)
                    == count_prefix(self.sequence_ids_seq(), sequence_id, i as int - 1) + (
                if self.sequence_ids_seq()[i - 1] == Some(sequence_id) {
                    1int
                } else {
                    0int
                }));
            }
        }
        cnt
    }

    /// Builds the keep-mask for a pair truncation that retains `k0` tokens
    /// of sequence 0 and `k1` of sequence 1, removal working from the
    /// `direction` end of each sequence.
    fn build_pair_keep_mask(
        &self,
        c0: usize,
        c1: usize,
        k0: usize,
        k1: usize,
        direction: TruncationDirection,
    ) -> (r: Vec<bool>)
        requires
            self.token_wf(),
            c0 as int == count_prefix(self.sequence_ids_seq(), 0, self.spec_len() as int),
            c1 as int == count_prefix(self.sequence_ids_seq(), 1, self.spec_len() as int),
            k0 <= c0,
            k1 <= c1,
        ensures
            r@ == self.pair_keep_mask(k0 as int, k1 as int, direction),
            count_true(r@) == self.spec_len() - (c0 - k0) - (c1 - k1),
    {
        let ghost mask = self.pair_keep_mask(k0 as int, k1 as int, direction);
        let n = self.sequence_ids.len();
        let mut r: Vec<bool> = Vec::new();
        let mut r0: usize = 0;
        let mut r1: usize = 0;
        let mut t: usize = 0;
        let mut i: usize = 0;
        while i < n
            invariant
                self.token_wf(),
                mask == self.pair_keep_mask(k0 as int, k1 as int, direction),
                c0 as int == count_prefix(self.sequence_ids_seq(), 0, self.spec_len() as int),
                c1 as int == count_prefix(self.sequence_ids_seq(), 1, self.spec_len() as int),
                k0 <= c0,
                k1 <= c1,
                i <= n,
                n == self.sequence_ids@.len(),
                r0 <= i,
                r1 <= i,
                t <= i,
                r0 as int == count_prefix(self.sequence_ids_seq(), 0, i as int),
                r1 as int == count_prefix(self.sequence_ids_seq(), 1, i as int),
                r@.len() == i,
                forall|x: int| 0 <= x < i ==> r@[x] == mask[x],
                t as int == count_true(r@),
                direction == TruncationDirection::Right ==> t as int == i - (
                if r0 as int <= k0 as int {
                    0int
                } else {
                    r0 - k0
                }) - (
                if r1 as int <= k1 as int {
                    0int
                } else {
                    r1 - k1
                }),
                direction == TruncationDirection::Left ==> t as int == i - (
                if r0 as int <= c0 - k0 {
                    r0 as int
                } else {
                    c0 - k0
                }) - (
                if r1 as int <= c1 - k1 {
                    r1 as int
                } else {
                    c1 - k1
                }),
            decreases n - i,
        {
            let keep: bool = match self.sequence_ids[i] {
                None => true,
                Some(s) => {
                    if s == 0 {
                        match direction {
                            TruncationDirection::Right => r0 < k0,
                            TruncationDirection::Left => r0 >= c0 - k0,
                        }
                    } else {
                        match direction {
                            TruncationDirection::Right => r1 < k1,
                            TruncationDirection::Left => r1 >= c1 - k1,
                        }
                    }
                },
            };
            let ghost prev_mask = r@;
            r.push(keep);
            if keep {
                t = t + 1;
            }
            match self.sequence_ids[i] {
                None => (),
                Some(s) => {
                    if s == 0 {
                        r0 = r0 + 1;
                    } else {
                        r1 = r1 + 1;
                    }
                },
            }
            i = i + 1;
            proof {
                assert(count_prefix(self.sequence_ids_seq(), 0, i as int) == count_prefix(
                    self.sequence_ids_seq(),
                    0,
                    i as int - 1,
                ) + (
                if self.sequence_ids_seq()[i - 1] == Some(0u32) {
                    1int
                } else {
                    0int
                }));
                assert(count_prefix(self.sequence_ids_seq(), 1, i as int) == count_prefix(
                    self.sequence_ids_seq(),
                    1,
                    i as int - 1,
                ) + (
                if self.sequence_ids_seq()[i - 1] == Some(1u32) {
                    1int
                } else {
                    0int
                }));
                assert(r@[i - 1] == mask[i - 1]);
                assert(r@.drop_last() =~= prev_mask);
                assert(count_true(r@) == count_true(prev_mask) + (if r@.last() {
                    1int
                } else {
                    0int
                }));
            }
        }
        proof {
            assert(r@ =~= mask);
        }
        r
    }

    /// Splits the per-token arrays by a keep-mask: the first result holds
    /// the surviving tokens, the second the removed ones, both in order.
    fn split_by_mask(&self, keep: &Vec<bool>) -> (r: (Encoding, Encoding))
        requires
            self.token_wf(),
            keep@.len() == self.spec_len(),
        ensures
            r.0.token_wf(),
            r.1.token_wf(),
            r.0.is_populated(),
            r.1.is_populated(),
            r.0.seq_count() == self.seq_count(),
            r.1.seq_count() == self.seq_count(),
            r.0.overflow_seq().len() == 0,
            r.1.overflow_seq().len() == 0,
            arrays_are_selection(r.0, *self, keep@),
            arrays_are_selection(r.1, *self, invert_mask(keep@)),
            r.0.spec_len() == count_true(keep@),
            r.0.spec_len() + r.1.spec_len() == self.spec_len(),
    {
        let ghost inv = invert_mask(keep@);
        let n = self.ids.len();
        let mut kept_ids: Vec<u32> = Vec::new();
        let mut kept_type_ids: Vec<u32> = Vec::new();
        let mut kept_tokens: Vec<String> = Vec::new();
        let mut kept_offsets: Vec<(usize, usize)> = Vec::new();
        let mut kept_word_ids: Vec<Option<u32>> = Vec::new();
        let mut kept_special: Vec<u32> = Vec::new();
        let mut kept_attention: Vec<u32> = Vec::new();
        let mut kept_sequence_ids: Vec<Option<u32>> = Vec::new();
        let mut rem_ids: Vec<u32> = Vec::new();
        let mut rem_type_ids: Vec<u32> = Vec::new();
        let mut rem_tokens: Vec<String> = Vec::new();
        let mut rem_offsets: Vec<(usize, usize)> = Vec::new();
        let mut rem_word_ids: Vec<Option<u32>> = Vec::new();
        let mut rem_special: Vec<u32> = Vec::new();
        let mut rem_attention: Vec<u32> = Vec::new();
        let mut rem_sequence_ids: Vec<Option<u32>> = Vec::new();
        let mut i: usize = 0;
        while i < n
            invariant
                self.token_wf(),
                i <= n,
                n == self.spec_len(),
                keep@.len() == self.spec_len(),
                inv == invert_mask(keep@),
                kept_ids@ == select_seq(self.ids@.take(i as int), keep@.take(i as int)),
                kept_type_ids@ == select_seq(self.type_ids@.take(i as int), keep@.take(i as int)),
                kept_tokens@ == select_seq(self.tokens@.take(i as int), keep@.take(i as int)),
                kept_offsets@ == select_seq(self.offsets@.take(i as int), keep@.take(i as int)),
                kept_word_ids@ == select_seq(self.word_ids@.take(i as int), keep@.take(i as int)),
                kept_special@ == select_seq(
                    self.special_tokens_mask@.take(i as int),
                    keep@.take(i as int),
                ),
                kept_attention@ == select_seq(
                    self.attention_mask@.take(i as int),
                    keep@.take(i as int),
                ),
                kept_sequence_ids@ == select_seq(
                    self.sequence_ids@.take(i as int),
                    keep@.take(i as int),
                ),
                rem_ids@ == select_seq(self.ids@.take(i as int), inv.take(i as int)),
                rem_type_ids@ == select_seq(self.type_ids@.take(i as int), inv.take(i as int)),
                rem_tokens@ == select_seq(self.tokens@.take(i as int), inv.take(i as int)),
                rem_offsets@ == select_seq(self.offsets@.take(i as int), inv.take(i as int)),
                rem_word_ids@ == select_seq(self.word_ids@.take(i as int), inv.take(i as int)),
                rem_special@ == select_seq(
                    self.special_tokens_mask@.take(i as int),
                    inv.take(i as int),
                ),
                rem_attention@ == select_seq(
                    self.attention_mask@.take(i as int),
                    inv.take(i as int),
                ),
                rem_sequence_ids@ == select_seq(
                    self.sequence_ids@.take(i as int),
                    inv.take(i as int),
                ),
            decreases n - i,
        {
            if keep[i] {
                kept_ids.push(self.ids[i]);
                kept_type_ids.push(self.type_ids[i]);
                kept_tokens.push(self.tokens[i].clone());
                kept_offsets.push(self.offsets[i]);
                kept_word_ids.push(self.word_ids[i]);
                kept_special.push(self.special_tokens_mask[i]);
                kept_attention.push(self.attention_mask[i]);
                kept_sequence_ids.push(self.sequence_ids[i]);
            } else {
                rem_ids.push(self.ids[i]);
                rem_type_ids.push(self.type_ids[i]);
                rem_tokens.push(self.tokens[i].clone());
                rem_offsets.push(self.offsets[i]);
                rem_word_ids.push(self.word_ids[i]);
                rem_special.push(self.special_tokens_mask[i]);
                rem_attention.push(self.attention_mask[i]);
                rem_sequence_ids.push(self.sequence_ids[i]);
            }
            i = i + 1;
            proof {
                let ii = i as int;
                assert(keep@.take(ii).drop_last() =~= keep@.take(ii - 1));
                assert(inv.take(ii).drop_last() =~= inv.take(ii - 1));
                assert(keep@.take(ii).last() == keep@[ii - 1]);
                assert(inv.take(ii).last() == !keep@[ii - 1]);
                assert(self.ids@.take(ii).drop_last() =~= self.ids@.take(ii - 1));
                assert(self.type_ids@.take(ii).drop_last() =~= self.type_ids@.take(ii - 1));
                assert(self.tokens@.take(ii).drop_last() =~= self.tokens@.take(ii - 1));
                assert(self.offsets@.take(ii).drop_last() =~= self.offsets@.take(ii - 1));
                assert(self.word_ids@.take(ii).drop_last() =~= self.word_ids@.take(ii - 1));
                assert(self.special_tokens_mask@.take(ii).drop_last()
                    =~= self.special_tokens_mask@.take(ii - 1));
                assert(self.attention_mask@.take(ii).drop_last() =~= self.attention_mask@.take(
                    ii - 1,
                ));
                assert(self.sequence_ids@.take(ii).drop_last() =~= self.sequence_ids@.take(
                    ii - 1,
                ));
                assert(kept_ids@ =~= select_seq(self.ids@.take(ii), keep@.take(ii)));
                assert(kept_type_ids@ =~= select_seq(self.type_ids@.take(ii), keep@.take(ii)));
                assert(kept_tokens@ =~= select_seq(self.tokens@.take(ii), keep@.take(ii)));
                assert(kept_offsets@ =~= select_seq(self.offsets@.take(ii), keep@.take(ii)));
                assert(kept_word_ids@ =~= select_seq(self.word_ids@.take(ii), keep@.take(ii)));
                assert(kept_special@ =~= select_seq(
                    self.special_tokens_mask@.take(ii),
                    keep@.take(ii),
                ));
                assert(kept_attention@ =~= select_seq(
                    self.attention_mask@.take(ii),
                    keep@.take(ii),
                ));
                assert(kept_sequence_ids@ =~= select_seq(
                    self.sequence_ids@.take(ii),
                    keep@.take(ii),
                ));
                assert(rem_ids@ =~= select_seq(self.ids@.take(ii), inv.take(ii)));
                assert(rem_type_ids@ =~= select_seq(self.type_ids@.take(ii), inv.take(ii)));
                assert(rem_tokens@ =~= select_seq(self.tokens@.take(ii), inv.take(ii)));
                assert(rem_offsets@ =~= select_seq(self.offsets@.take(ii), inv.take(ii)));
                assert(rem_word_ids@ =~= select_seq(self.word_ids@.take(ii), inv.take(ii)));
                assert(rem_special@ =~= select_seq(
                    self.special_tokens_mask@.take(ii),
                    inv.take(ii),
                ));
                assert(rem_attention@ =~= select_seq(
                    self.attention_mask@.take(ii),
                    inv.take(ii),
                ));
                assert(rem_sequence_ids@ =~= select_seq(
                    self.sequence_ids@.take(ii),
                    inv.take(ii),
                ));
            }
        }
        proof {
            assert(self.ids@.take(n as int) =~= self.ids@);
            assert(self.type_ids@.take(n as int) =~= self.type_ids@);
            assert(self.tokens@.take(n as int) =~= self.tokens@);
            assert(self.offsets@.take(n as int) =~= self.offsets@);
            assert(self.word_ids@.take(n as int) =~= self.word_ids@);
            assert(self.special_tokens_mask@.take(n as int) =~= self.special_tokens_mask@);
            assert(self.attention_mask@.take(n as int) =~= self.attention_mask@);
            assert(self.sequence_ids@.take(n as int) =~= self.sequence_ids@);
            assert(keep@.take(n as int) =~= keep@);
            assert(inv.take(n as int) =~= inv);
            lemma_select_len(self.ids@, keep@);
            lemma_select_len(self.type_ids@, keep@);
            lemma_select_len(self.tokens@, keep@);
            lemma_select_len(self.offsets@, keep@);
            lemma_select_len(self.word_ids@, keep@);
            lemma_select_len(self.special_tokens_mask@, keep@);
            lemma_select_len(self.attention_mask@, keep@);
            lemma_select_len(self.sequence_ids@, keep@);
            lemma_select_len(self.ids@, inv);
            lemma_select_len(self.type_ids@, inv);
            lemma_select_len(self.tokens@, inv);
            lemma_select_len(self.offsets@, inv);
            lemma_select_len(self.word_ids@, inv);
            lemma_select_len(self.special_tokens_mask@, inv);
            lemma_select_len(self.attention_mask@, inv);
            lemma_select_len(self.sequence_ids@, inv);
            lemma_count_true_invert(keep@);
        }
        let kept = Encoding {
            populated: true,
            n_sequences: self.n_sequences,
            ids: kept_ids,
            type_ids: kept_type_ids,
            tokens: kept_tokens,
            offsets: kept_offsets,
            word_ids: kept_word_ids,
            special_tokens_mask: kept_special,
            attention_mask: kept_attention,
            sequence_ids: kept_sequence_ids,
            overflowing: Vec::new(),
        };
        let removed = Encoding {
            populated: true,
            n_sequences: self.n_sequences,
            ids: rem_ids,
            type_ids: rem_type_ids,
            tokens: rem_tokens,
            offsets: rem_offsets,
            word_ids: rem_word_ids,
            special_tokens_mask: rem_special,
            attention_mask: rem_attention,
            sequence_ids: rem_sequence_ids,
            overflowing: Vec::new(),
        };
        proof {
            lemma_select_elements(self.sequence_ids@, keep@);
            lemma_select_elements(self.sequence_ids@, inv);
            assert forall|x: int| 0 <= x < kept.sequence_ids@.len() implies ((
            #[trigger] kept.sequence_ids@[x]) matches Some(s) ==> (s as int)
                < kept.n_sequences as int) by {
                assert(kept.sequence_ids@[x] == select_seq(self.sequence_ids@, keep@)[x]);
                assert(self.sequence_ids@.contains(select_seq(self.sequence_ids@, keep@)[x]));
                let y = choose|y: int|
                    0 <= y < self.sequence_ids@.len() && self.sequence_ids@[y] == select_seq(
                        self.sequence_ids@,
                        keep@,
                    )[x];
                assert(kept.sequence_ids@[x] == self.sequence_ids@[y]);
            }
            assert forall|x: int| 0 <= x < removed.sequence_ids@.len() implies ((
            #[trigger] removed.sequence_ids@[x]) matches Some(s) ==> (s as int)
                < removed.n_sequences as int) by {
                assert(removed.sequence_ids@[x] == select_seq(self.sequence_ids@, inv)[x]);
                assert(self.sequence_ids@.contains(select_seq(self.sequence_ids@, inv)[x]));
                let y = choose|y: int|
                    0 <= y < self.sequence_ids@.len() && self.sequence_ids@[y] == select_seq(
                        self.sequence_ids@,
                        inv,
                    )[x];
                assert(removed.sequence_ids@[x] == self.sequence_ids@[y]);
            }
        }
        (kept, removed)
    }

    /// Extends the encoding to `target_length` tokens with synthetic pad
    /// entries: `ids = pad_id`, `type_ids = pad_type_id`,
    /// `tokens = pad_token`, offsets `(0, 0)`, no word id, special-token
    /// mask 1, attention mask 0 and no sequence id. `Right` appends the pad
    /// block, `Left` prepends it; the original tokens are untouched and stay
    /// contiguous on the side opposite `direction`. An encoding already at
    /// or beyond `target_length` is left exactly as it is, so padding twice
    /// to the same target is a no-op.
    pub fn pad(
        &mut self,
        target_length: usize,
        pad_id: u32,
        pad_type_id: u32,
        pad_token: &String,
        direction: PaddingDirection,
    ) -> (r: Result<(), EncodingError>)
        requires
            old(self).wf(),
        ensures
            final(self).wf(),
            !old(self).is_populated() ==> r == Err::<(), EncodingError>(
                EncodingError::UninitializedState,
            ) && *final(self) == *old(self),
            old(self).is_populated() ==> r == Ok::<(), EncodingError>(())
                && padding_post(
                *old(self),
                *final(self),
                target_length as int,
                pad_id,
                pad_type_id,
                *pad_token,
                direction,
            ),
    {
        if !self.populated {
            return Err(EncodingError::UninitializedState);
        }
        let n = self.ids.len();
        if n >= target_length {
            return Ok(());
        }
        let k = target_length - n;
        let ghost pre = *self;
        match direction {
            PaddingDirection::Right => {
                let mut j: usize = 0;
                while j < k
                    invariant
                        j <= k,
                        pre.wf(),
                        pre.is_populated(),
                        pre.spec_len() + k == target_length,
                        self.populated == pre.populated,
                        self.n_sequences == pre.n_sequences,
                        self.overflowing@ == pre.overflowing@,
                        self.ids@ == pre.ids@ + Seq::new(j as nat, |x: int| pad_id),
                        self.type_ids@ == pre.type_ids@ + Seq::new(j as nat, |x: int| pad_type_id),
                        self.tokens@ == pre.tokens@ + Seq::new(j as nat, |x: int| *pad_token),
                        self.offsets@ == pre.offsets@ + Seq::new(
                            j as nat,
                            |x: int| (0usize, 0usize),
                        ),
                        self.word_ids@ == pre.word_ids@ + Seq::new(j as nat, |x: int| None::<u32>),
                        self.special_tokens_mask@ == pre.special_tokens_mask@ + Seq::new(
                            j as nat,
                            |x: int| 1u32,
                        ),
                        self.attention_mask@ == pre.attention_mask@ + Seq::new(
                            j as nat,
                            |x: int| 0u32,
                        ),
                        self.sequence_ids@ == pre.sequence_ids@ + Seq::new(
                            j as nat,
                            |x: int| None::<u32>,
                        ),
                    decreases k - j,
                {
                    self.ids.push(pad_id);
                    self.type_ids.push(pad_type_id);
                    self.tokens.push(pad_token.clone());
                    self.offsets.push((0, 0));
                    self.word_ids.push(None);
                    self.special_tokens_mask.push(1);
                    self.attention_mask.push(0);
                    self.sequence_ids.push(None);
                    j = j + 1;
                    proof {
                        assert(self.ids@ =~= pre.ids@ + Seq::new(j as nat, |x: int| pad_id));
                        assert(self.type_ids@ =~= pre.type_ids@ + Seq::new(
                            j as nat,
                            |x: int| pad_type_id,
                        ));
                        assert(self.tokens@ =~= pre.tokens@ + Seq::new(
                            j as nat,
                            |x: int| *pad_token,
                        ));
                        assert(self.offsets@ =~= pre.offsets@ + Seq::new(
                            j as nat,
                            |x: int| (0usize, 0usize),
                        ));
                        assert(self.word_ids@ =~= pre.word_ids@ + Seq::new(
                            j as nat,
                            |x: int| None::<u32>,
                        ));
                        assert(self.special_tokens_mask@ =~= pre.special_tokens_mask@ + Seq::new(
                            j as nat,
                            |x: int| 1u32,
                        ));
                        assert(self.attention_mask@ =~= pre.attention_mask@ + Seq::new(
                            j as nat,
                            |x: int| 0u32,
                        ));
                        assert(self.sequence_ids@ =~= pre.sequence_ids@ + Seq::new(
                            j as nat,
                            |x: int| None::<u32>,
                        ));
                    }
                }
            },
            PaddingDirection::Left => {
                let mut new_ids: Vec<u32> = Vec::new();
                let mut new_type_ids: Vec<u32> = Vec::new();
                let mut new_tokens: Vec<String> = Vec::new();
                let mut new_offsets: Vec<(usize, usize)> = Vec::new();
                let mut new_word_ids: Vec<Option<u32>> = Vec::new();
                let mut new_special: Vec<u32> = Vec::new();
                let mut new_attention: Vec<u32> = Vec::new();
                let mut new_sequence_ids: Vec<Option<u32>> = Vec::new();
                let mut j: usize = 0;
                while j < k
                    invariant
                        j <= k,
                        new_ids@ == Seq::new(j as nat, |x: int| pad_id),
                        new_type_ids@ == Seq::new(j as nat, |x: int| pad_type_id),
                        new_tokens@ == Seq::new(j as nat, |x: int| *pad_token),
                        new_offsets@ == Seq::new(j as nat, |x: int| (0usize, 0usize)),
                        new_word_ids@ == Seq::new(j as nat, |x: int| None::<u32>),
                        new_special@ == Seq::new(j as nat, |x: int| 1u32),
                        new_attention@ == Seq::new(j as nat, |x: int| 0u32),
                        new_sequence_ids@ == Seq::new(j as nat, |x: int| None::<u32>),
                    decreases k - j,
                {
                    new_ids.push(pad_id);
                    new_type_ids.push(pad_type_id);
                    new_tokens.push(pad_token.clone());
                    new_offsets.push((0, 0));
                    new_word_ids.push(None);
                    new_special.push(1);
                    new_attention.push(0);
                    new_sequence_ids.push(None);
                    j = j + 1;
                    proof {
                        assert(new_ids@ =~= Seq::new(j as nat, |x: int| pad_id));
                        assert(new_type_ids@ =~= Seq::new(j as nat, |x: int| pad_type_id));
                        assert(new_tokens@ =~= Seq::new(j as nat, |x: int| *pad_token));
                        assert(new_offsets@ =~= Seq::new(j as nat, |x: int| (0usize, 0usize)));
                        assert(new_word_ids@ =~= Seq::new(j as nat, |x: int| None::<u32>));
                        assert(new_special@ =~= Seq::new(j as nat, |x: int| 1u32));
                        assert(new_attention@ =~= Seq::new(j as nat, |x: int| 0u32));
                        assert(new_sequence_ids@ =~= Seq::new(j as nat, |x: int| None::<u32>));
                    }
                }
                new_ids.append(&mut self.ids);
                new_type_ids.append(&mut self.type_ids);
                new_tokens.append(&mut self.tokens);
                new_offsets.append(&mut self.offsets);
                new_word_ids.append(&mut self.word_ids);
                new_special.append(&mut self.special_tokens_mask);
                new_attention.append(&mut self.attention_mask);
                new_sequence_ids.append(&mut self.sequence_ids);
                self.ids = new_ids;
                self.type_ids = new_type_ids;
                self.tokens = new_tokens;
                self.offsets = new_offsets;
                self.word_ids = new_word_ids;
                self.special_tokens_mask = new_special;
                self.attention_mask = new_attention;
                self.sequence_ids = new_sequence_ids;
            },
        }
        proof {
            assert forall|i: int| 0 <= i < self.sequence_ids@.len() implies ((
            #[trigger] self.sequence_ids@[i]) matches Some(s) ==> (s as int)
                < self.n_sequences as int) by {
                if direction == PaddingDirection::Right {
                    if i < pre.sequence_ids@.len() {
                        assert(self.sequence_ids@[i] == pre.sequence_ids@[i]);
                    } else {
                        assert(self.sequence_ids@[i] == None::<u32>);
                    }
                } else {
                    if i < k {
                        assert(self.sequence_ids@[i] == None::<u32>);
                    } else {
                        assert(self.sequence_ids@[i] == pre.sequence_ids@[i - k]);
                    }
                }
            }
        }
        Ok(())
    }

    /// Trims the encoding to at most `max_length` tokens, moving the
    /// removed tokens into a new overflow entry appended to `overflowing`.
    /// An encoding already within `max_length` is left exactly as it is, so
    /// truncating twice to the same target is a no-op.
    ///
    /// A single-sequence encoding is trimmed from the `direction` end (the
    /// strategy must be `LongestFirst`); the overflow entry additionally
    /// duplicates the `stride` retained tokens nearest the cut, a stride at
    /// or beyond `max_length` saturating to `max_length`. With
    /// `max_length = 0` the whole content moves to overflow.
    ///
    /// A pair encoding is trimmed per strategy — `OnlyFirst` and
    /// `OnlySecond` remove only from the named sequence and report
    /// `InvalidStrategyForInput` when it runs out of tokens,
    /// `LongestFirst` repeatedly removes one token from the currently
    /// longer sequence (ties from sequence 0) and reports
    /// `InvalidStrategyForInput` when both sequences together cannot cover
    /// the excess. The overflow entry holds the removed tokens of both
    /// sequences in original positional order; `stride` duplication applies
    /// to single-sequence truncation only.
    pub fn truncate(
        &mut self,
        max_length: usize,
        stride: usize,
        strategy: TruncationStrategy,
        direction: TruncationDirection,
    ) -> (r: Result<(), EncodingError>)
        requires
            old(self).wf(),
        ensures
            final(self).wf(),
            truncation_outcome(
                *old(self),
                *final(self),
                max_length as int,
                stride as int,
                strategy,
                direction,
                r,
            ),
    {
        if !self.populated {
            return Err(EncodingError::UninitializedState);
        }
        let n = self.ids.len();
        if n <= max_length {
            return Ok(());
        }
        let excess = n - max_length;
        let ghost pre = *self;
        if self.n_sequences == 1 {
            match strategy {
                TruncationStrategy::LongestFirst => (),
                _ => {
                    return Err(EncodingError::InvalidStrategyForInput);
                },
            }
            let s_eff = if stride <= max_length {
                stride
            } else {
                max_length
            };
            let child: Encoding;
            let kept: Encoding;
            match direction {
                TruncationDirection::Right => {
                    child = self.slice_range(max_length - s_eff, n);
                    kept = self.slice_range(0, max_length);
                },
                TruncationDirection::Left => {
                    child = self.slice_range(0, n - max_length + s_eff);
                    kept = self.slice_range(n - max_length, n);
                },
            }
            let ghost keptg = kept;
            let ghost childg = child;
            let Encoding {
                ids,
                type_ids,
                tokens,
                offsets,
                word_ids,
                special_tokens_mask,
                attention_mask,
                sequence_ids,
                ..
            } = kept;
            self.ids = ids;
            self.type_ids = type_ids;
            self.tokens = tokens;
            self.offsets = offsets;
            self.word_ids = word_ids;
            self.special_tokens_mask = special_tokens_mask;
            self.attention_mask = attention_mask;
            self.sequence_ids = sequence_ids;
            self.overflowing.push(child);
            proof {
                assert(self.overflowing@.drop_last() =~= pre.overflowing@);
                assert(self.overflowing@.last() == childg);
                assert forall|x: int| 0 <= x < self.overflowing@.len() implies {
                    &&& (#[trigger] self.overflowing@[x]).token_wf()
                    &&& self.overflowing@[x].is_populated()
                    &&& self.overflowing@[x].overflow_seq().len() == 0
                } by {
                    if x < pre.overflowing@.len() {
                        assert(self.overflowing@[x] == pre.overflowing@[x]);
                    } else {
                        assert(self.overflowing@[x] == childg);
                    }
                }
                assert(self.token_wf()) by {
                    assert(self.ids@ == keptg.ids@);
                    assert(self.sequence_ids@ == keptg.sequence_ids@);
                    assert(keptg.token_wf());
                }
            }
            Ok(())
        } else {
            proof {
                lemma_count_prefix_disjoint(self.sequence_ids_seq(), n as int);
                lemma_count_prefix_bounds(self.sequence_ids_seq(), 0, n as int);
                lemma_count_prefix_bounds(self.sequence_ids_seq(), 1, n as int);
            }
            let c0 = self.count_sequence_tokens(0);
            let c1 = self.count_sequence_tokens(1);
            let k0: usize;
            let k1: usize;
            match strategy {
                TruncationStrategy::LongestFirst => {
                    if excess > c0 + c1 {
                        return Err(EncodingError::InvalidStrategyForInput);
                    }
                    let kk = compute_longest_first_kept(c0, c1, excess);
                    proof {
                        lemma_longest_first_kept_total(c0 as int, c1 as int, excess as int);
                    }
                    k0 = kk.0;
                    k1 = kk.1;
                },
                TruncationStrategy::OnlyFirst => {
                    if c0 < excess {
                        return Err(EncodingError::InvalidStrategyForInput);
                    }
                    k0 = c0 - excess;
                    k1 = c1;
                },
                TruncationStrategy::OnlySecond => {
                    if c1 < excess {
                        return Err(EncodingError::InvalidStrategyForInput);
                    }
                    k0 = c0;
                    k1 = c1 - excess;
                },
            }
            let mask = self.build_pair_keep_mask(c0, c1, k0, k1, direction);
            let (kept, removed) = self.split_by_mask(&mask);
            let ghost keptg = kept;
            let ghost remg = removed;
            let Encoding {
                ids,
                type_ids,
                tokens,
                offsets,
                word_ids,
                special_tokens_mask,
                attention_mask,
                sequence_ids,
                ..
            } = kept;
            self.ids = ids;
            self.type_ids = type_ids;
            self.tokens = tokens;
            self.offsets = offsets;
            self.word_ids = word_ids;
            self.special_tokens_mask = special_tokens_mask;
            self.attention_mask = attention_mask;
            self.sequence_ids = sequence_ids;
            self.overflowing.push(removed);
            proof {
                assert(self.overflowing@.drop_last() =~= pre.overflowing@);
                assert(self.overflowing@.last() == remg);
                assert forall|x: int| 0 <= x < self.overflowing@.len() implies {
                    &&& (#[trigger] self.overflowing@[x]).token_wf()
                    &&& self.overflowing@[x].is_populated()
                    &&& self.overflowing@[x].overflow_seq().len() == 0
                } by {
                    if x < pre.overflowing@.len() {
                        assert(self.overflowing@[x] == pre.overflowing@[x]);
                    } else {
                        assert(self.overflowing@[x] == remg);
                    }
                }
                assert(self.token_wf()) by {
                    assert(self.ids@ == keptg.ids@);
                    assert(self.sequence_ids@ == keptg.sequence_ids@);
                    assert(keptg.token_wf());
                }
                assert(self.spec_len() == max_length);
            }
            Ok(())
        }
    }

    /// The stored overflow encodings, as fresh independent copies: mutating
    /// the parent afterwards cannot affect them, nor they the parent.
    pub fn get_overflowing(&self) -> (r: Result<Vec<Encoding>, EncodingError>)
        requires
            self.wf(),
        ensures
            self.is_populated() ==> (r matches Ok(v) && v@.len() == self.overflow_seq().len()
                && forall|i: int| #![auto]
                0 <= i < v@.len() ==> core_equiv(v@[i], self.overflow_seq()[i]) && v@[i].wf()
                    && v@[i].is_populated() && v@[i].overflow_seq().len() == 0),
            !self.is_populated() ==> r == Err::<Vec<Encoding>, EncodingError>(
                EncodingError::UninitializedState,
            ),
    {
        if !self.populated {
            return Err(EncodingError::UninitializedState);
        }
        let n = self.overflowing.len();
        let mut out: Vec<Encoding> = Vec::new();
        let mut i: usize = 0;
        while i < n
            invariant
                self.wf(),
                self.is_populated(),
                i <= n,
                n == self.overflow_seq().len(),
                out@.len() == i,
                forall|x: int| #![auto]
                    0 <= x < i ==> core_equiv(out@[x], self.overflow_seq()[x]) && out@[x].wf()
                        && out@[x].is_populated() && out@[x].overflow_seq().len() == 0,
            decreases n - i,
        {
            let c = &self.overflowing[i];
            let m = c.ids.len();
            let copy = c.slice_range(0, m);
            proof {
                assert(c.ids@.subrange(0, m as int) =~= c.ids@);
                assert(c.type_ids@.subrange(0, m as int) =~= c.type_ids@);
                assert(c.tokens@.subrange(0, m as int) =~= c.tokens@);
                assert(c.offsets@.subrange(0, m as int) =~= c.offsets@);
                assert(c.word_ids@.subrange(0, m as int) =~= c.word_ids@);
                assert(c.special_tokens_mask@.subrange(0, m as int) =~= c.special_tokens_mask@);
                assert(c.attention_mask@.subrange(0, m as int) =~= c.attention_mask@);
                assert(c.sequence_ids@.subrange(0, m as int) =~= c.sequence_ids@);
                assert(core_equiv(copy, self.overflow_seq()[i as int]));
                assert(copy.wf());
            }
            out.push(copy);
            i = i + 1;
        }
        Ok(out)
    }

    /// Whether token `i` belongs to sequence `sequence_id` and its offsets
    /// cover character position `pos`.
    pub open spec fn token_covers(self, i: int, pos: usize, sequence_id: u32) -> bool {
        &&& self.sequence_ids_seq()[i] == Some(sequence_id)
        &&& self.offsets_seq()[i].0 <= pos < self.offsets_seq()[i].1
    }

    /// The first token at index `i` or later that covers `pos` within
    /// `sequence_id`, if any.
    pub open spec fn char_search(self, pos: usize, sequence_id: u32, i: int) -> Option<usize>
        decreases self.spec_len() - i,
    {
        if i < 0 || i >= self.spec_len() {
            None
        } else if self.token_covers(i, pos, sequence_id) {
            Some(i as usize)
        } else {
            self.char_search(pos, sequence_id, i + 1)
        }
    }

    /// What `char_to_token` returns: the first token of `sequence_id` whose
    /// offsets cover `pos`, if any.
    pub open spec fn spec_char_to_token(self, pos: usize, sequence_id: u32) -> Option<usize> {
        self.char_search(pos, sequence_id, 0)
    }

    /// A successful `char_search` stays in range and really covers `pos`.
    proof fn lemma_char_search_bounds(self, pos: usize, sequence_id: u32, i: int)
        requires
            0 <= i,
            self.spec_len() <= usize::MAX,
        ensures
            self.char_search(pos, sequence_id, i) matches Some(t) ==> i <= t
                < self.spec_len() && self.token_covers(t as int, pos, sequence_id),
        decreases self.spec_len() - i,
    {
        if i < self.spec_len() && !self.token_covers(i, pos, sequence_id) {
            self.lemma_char_search_bounds(pos, sequence_id, i + 1);
        }
    }

    /// `char_search` finds `t` when `t` covers `pos` and no earlier token
    /// does.
    proof fn lemma_char_search_finds(self, pos: usize, sequence_id: u32, i: int, t: int)
        requires
            self.spec_len() <= usize::MAX,
            0 <= i <= t < self.spec_len(),
            self.token_covers(t, pos, sequence_id),
            forall|j: int| i <= j < t ==> !self.token_covers(j, pos, sequence_id),
        ensures
            self.char_search(pos, sequence_id, i) == Some(t as usize),
        decreases t - i,
    {
        if i < t {
            self.lemma_char_search_finds(pos, sequence_id, i + 1, t);
        }
    }

    /// The token (within `sequence_id`) whose offsets cover character
    /// position `pos`, or `None` when no token of that sequence covers it.
    pub fn char_to_token(&self, pos: usize, sequence_id: u32) -> (r: Result<
        Option<usize>,
        EncodingError,
    >)
        requires
            self.wf(),
        ensures
            self.is_populated() ==> r == Ok::<Option<usize>, EncodingError>(
                self.spec_char_to_token(pos, sequence_id),
            ),
            !self.is_populated() ==> r == Err::<Option<usize>, EncodingError>(
                EncodingError::UninitializedState,
            ),
    {
        if !self.populated {
            return Err(EncodingError::UninitializedState);
        }
        let n = self.ids.len();
        let mut i: usize = 0;
        while i < n
            invariant
                self.wf(),
                i <= n,
                n == self.spec_len(),
                self.char_search(pos, sequence_id, 0) == self.char_search(
                    pos,
                    sequence_id,
                    i as int,
                ),
            decreases n - i,
        {
            let covered = match self.sequence_ids[i] {
                Some(s) => s == sequence_id && self.offsets[i].0 <= pos && pos < self.offsets[i].1,
                None => false,
            };
            if covered {
                proof {
                    assert(self.token_covers(i as int, pos, sequence_id));
                    assert(self.char_search(pos, sequence_id, i as int) == Some(i));
                }
                return Ok(Some(i));
            }
            proof {
                assert(!self.token_covers(i as int, pos, sequence_id));
                assert(self.char_search(pos, sequence_id, i as int) == self.char_search(
                    pos,
                    sequence_id,
                    i as int + 1,
                ));
            }
            i = i + 1;
        }
        Ok(None)
    }

    /// What `char_to_word` returns: the word id of the token found by
    /// `char_to_token`, if any.
    pub open spec fn spec_char_to_word(self, pos: usize, sequence_id: u32) -> Option<u32> {
        match self.spec_char_to_token(pos, sequence_id) {
            Some(t) => self.word_ids_seq()[t as int],
            None => None,
        }
    }

    /// The word id of the token (within `sequence_id`) covering character
    /// position `pos`, or `None` when no token of that sequence covers it
    /// or the covering token has no word origin.
    pub fn char_to_word(&self, pos: usize, sequence_id: u32) -> (r: Result<
        Option<u32>,
        EncodingError,
    >)
        requires
            self.wf(),
        ensures
            self.is_populated() ==> r == Ok::<Option<u32>, EncodingError>(
                self.spec_char_to_word(pos, sequence_id),
            ),
            !self.is_populated() ==> r == Err::<Option<u32>, EncodingError>(
                EncodingError::UninitializedState,
            ),
    {
        match self.char_to_token(pos, sequence_id) {
            Err(e) => Err(e),
            Ok(None) => Ok(None),
            Ok(Some(t)) => {
                proof {
                    self.lemma_char_search_bounds(pos, sequence_id, 0);
                }
                Ok(self.word_ids[t])
            },
        }
    }

    /// Whether token `i` belongs to sequence `sequence_id` and word `word`.
    pub open spec fn word_match(self, i: int, word: u32, sequence_id: u32) -> bool {
        &&& self.sequence_ids_seq()[i] == Some(sequence_id)
        &&& self.word_ids_seq()[i] == Some(word)
    }

    /// The first token at index `i` or later belonging to `word` within
    /// `sequence_id`, if any.
    pub open spec fn first_word_match(self, word: u32, sequence_id: u32, i: int) -> Option<usize>
        decreases self.spec_len() - i,
    {
        if i < 0 || i >= self.spec_len() {
            None
        } else if self.word_match(i, word, sequence_id) {
            Some(i as usize)
        } else {
            self.first_word_match(word, sequence_id, i + 1)
        }
    }

    /// The last token at index `i` or earlier belonging to `word` within
    /// `sequence_id`, if any.
    pub open spec fn last_word_match(self, word: u32, sequence_id: u32, i: int) -> Option<usize>
        decreases i + 1,
    {
        if i < 0 || i >= self.spec_len() {
            None
        } else if self.word_match(i, word, sequence_id) {
            Some(i as usize)
        } else {
            self.last_word_match(word, sequence_id, i - 1)
        }
    }

    /// What `word_to_tokens` returns: the `[start, end)` token range from
    /// the first to the last token of `word` within `sequence_id`, if the
    /// word occurs there.
    pub open spec fn spec_word_to_tokens(self, word: u32, sequence_id: u32) -> Option<
        (usize, usize),
    > {
        match self.first_word_match(word, sequence_id, 0) {
            None => None,
            Some(a) => match self.last_word_match(word, sequence_id, self.spec_len() as int - 1) {
                None => None,
                Some(b) => Some((a, (b + 1) as usize)),
            },
        }
    }

    /// A successful `first_word_match` stays in range and really matches;
    /// it is at or before any matching token at `t` or later.
    proof fn lemma_first_word_match_le(self, word: u32, sequence_id: u32, i: int, t: int)
        requires
            self.spec_len() <= usize::MAX,
            0 <= i <= t < self.spec_len(),
            self.word_match(t, word, sequence_id),
        ensures
            self.first_word_match(word, sequence_id, i) matches Some(a) && i <= a <= t
                && self.word_match(a as int, word, sequence_id),
        decreases t - i,
    {
        if !self.word_match(i, word, sequence_id) && i < t {
            self.lemma_first_word_match_le(word, sequence_id, i + 1, t);
        }
    }

    /// A successful `last_word_match` stays in range and really matches;
    /// it is at or after any matching token at `t` or earlier.
    proof fn lemma_last_word_match_ge(self, word: u32, sequence_id: u32, i: int, t: int)
        requires
            self.spec_len() <= usize::MAX,
            0 <= t <= i < self.spec_len(),
            self.word_match(t, word, sequence_id),
        ensures
            self.last_word_match(word, sequence_id, i) matches Some(b) && t <= b <= i
                && self.word_match(b as int, word, sequence_id),
        decreases i - t,
    {
        if !self.word_match(i, word, sequence_id) && t < i {
            self.lemma_last_word_match_ge(word, sequence_id, i - 1, t);
        }
    }

    /// A successful `first_word_match` stays in range and really matches.
    proof fn lemma_first_word_match_sound(self, word: u32, sequence_id: u32, i: int)
        requires
            0 <= i,
            self.spec_len() <= usize::MAX,
        ensures
            self.first_word_match(word, sequence_id, i) matches Some(a) ==> i <= a
                < self.spec_len() && self.word_match(a as int, word, sequence_id),
        decreases self.spec_len() - i,
    {
        if i < self.spec_len() && !self.word_match(i, word, sequence_id) {
            self.lemma_first_word_match_sound(word, sequence_id, i + 1);
        }
    }

    /// Scans forward for the first token of `word` within `sequence_id`.
    fn find_first_word_match(&self, word: u32, sequence_id: u32) -> (r: Option<usize>)
        requires
            self.wf(),
        ensures
            r == self.first_word_match(word, sequence_id, 0),
    {
        let n = self.ids.len();
        let mut i: usize = 0;
        while i < n
            invariant
                self.wf(),
                i <= n,
                n == self.spec_len(),
                self.first_word_match(word, sequence_id, 0) == self.first_word_match(
                    word,
                    sequence_id,
                    i as int,
                ),
            decreases n - i,
        {
            let matched = match (self.sequence_ids[i], self.word_ids[i]) {
                (Some(s), Some(w)) => s == sequence_id && w == word,
                _ => false,
            };
            if matched {
                proof {
                    assert(self.word_match(i as int, word, sequence_id));
                    assert(self.first_word_match(word, sequence_id, i as int) == Some(i));
                }
                return Some(i);
            }
            proof {
                assert(!self.word_match(i as int, word, sequence_id));
                assert(self.first_word_match(word, sequence_id, i as int)
                    == self.first_word_match(word, sequence_id, i as int + 1));
            }
            i = i + 1;
        }
        proof {
            assert(self.first_word_match(word, sequence_id, n as int) is None);
        }
        None
    }

    /// Scans backward for the last token of `word` within `sequence_id`.
    fn find_last_word_match(&self, word: u32, sequence_id: u32) -> (r: Option<usize>)
        requires
            self.wf(),
        ensures
            r == self.last_word_match(word, sequence_id, self.spec_len() as int - 1),
    {
        let n = self.ids.len();
        let mut j: usize = n;
        while j > 0
            invariant
                self.wf(),
                j <= n,
                n == self.spec_len(),
                self.last_word_match(word, sequence_id, n as int - 1) == self.last_word_match(
                    word,
                    sequence_id,
                    j as int - 1,
                ),
            decreases j,
        {
            j = j - 1;
            let matched = match (self.sequence_ids[j], self.word_ids[j]) {
                (Some(s), Some(w)) => s == sequence_id && w == word,
                _ => false,
            };
            if matched {
                proof {
                    assert(self.word_match(j as int, word, sequence_id));
                    assert(self.last_word_match(word, sequence_id, j as int) == Some(j));
                }
                return Some(j);
            }
            proof {
                assert(!self.word_match(j as int, word, sequence_id));
                assert(self.last_word_match(word, sequence_id, j as int)
                    == self.last_word_match(word, sequence_id, j as int - 1));
            }
        }
        proof {
            assert(self.last_word_match(word, sequence_id, -1) is None);
        }
        None
    }

    /// The contiguous `[start, end)` token range whose word ids equal
    /// `word` within `sequence_id`, or `None` when the word does not occur
    /// in that sequence.
    pub fn word_to_tokens(&self, word: u32, sequence_id: u32) -> (r: Result<
        Option<(usize, usize)>,
        EncodingError,
    >)
        requires
            self.wf(),
        ensures
            self.is_populated() ==> r == Ok::<Option<(usize, usize)>, EncodingError>(
                self.spec_word_to_tokens(word, sequence_id),
            ),
            !self.is_populated() ==> r == Err::<Option<(usize, usize)>, EncodingError>(
                EncodingError::UninitializedState,
            ),
    {
        if !self.populated {
            return Err(EncodingError::UninitializedState);
        }
        match self.find_first_word_match(word, sequence_id) {
            None => Ok(None),
            Some(a) => {
                proof {
                    self.lemma_first_word_match_sound(word, sequence_id, 0);
                }
                match self.find_last_word_match(word, sequence_id) {
                    Some(b) => {
                        proof {
                            self.lemma_last_word_match_ge(
                                word,
                                sequence_id,
                                self.spec_len() as int - 1,
                                a as int,
                            );
                        }
                        Ok(Some((a, b + 1)))
                    },
                    None => {
                        proof {
                            self.lemma_last_word_match_ge(
                                word,
                                sequence_id,
                                self.spec_len() as int - 1,
                                a as int,
                            );
                        }
                        vstd::pervasive::unreached()
                    },
                }
            },
        }
    }

    /// The character span collected over tokens `[0, i)` that belong to
    /// `word` within `sequence_id`: the least start offset and the greatest
    /// end offset seen so far, if any token matched.
    pub open spec fn word_span(self, word: u32, sequence_id: u32, i: int) -> Option<(usize, usize)>
        decreases i,
    {
        if i <= 0 {
            None
        } else {
            let rest = self.word_span(word, sequence_id, i - 1);
            if self.word_match(i - 1, word, sequence_id) {
                let off = self.offsets_seq()[i - 1];
                match rest {
                    None => Some(off),
                    Some(span) => Some(
                        (
                            if off.0 < span.0 {
                                off.0
                            } else {
                                span.0
                            },
                            if off.1 > span.1 {
                                off.1
                            } else {
                                span.1
                            },
                        ),
                    ),
                }
            } else {
                rest
            }
        }
    }

    /// What `word_to_chars` returns: the least start offset and greatest
    /// end offset over all tokens of `word` within `sequence_id`, if the
    /// word occurs there.
    pub open spec fn spec_word_to_chars(self, word: u32, sequence_id: u32) -> Option<
        (usize, usize),
    > {
        self.word_span(word, sequence_id, self.spec_len() as int)
    }

    /// The `(min start, max end)` character span over all tokens of `word`
    /// within `sequence_id`, or `None` when the word does not occur in that
    /// sequence.
    pub fn word_to_chars(&self, word: u32, sequence_id: u32) -> (r: Result<
        Option<(usize, usize)>,
        EncodingError,
    >)
        requires
            self.wf(),
        ensures
            self.is_populated() ==> r == Ok::<Option<(usize, usize)>, EncodingError>(
                self.spec_word_to_chars(word, sequence_id),
            ),
            !self.is_populated() ==> r == Err::<Option<(usize, usize)>, EncodingError>(
                EncodingError::UninitializedState,
            ),
    {
        if !self.populated {
            return Err(EncodingError::UninitializedState);
        }
        let n = self.ids.len();
        let mut acc: Option<(usize, usize)> = None;
        let mut i: usize = 0;
        while i < n
            invariant
                self.wf(),
                i <= n,
                n == self.spec_len(),
                acc == self.word_span(word, sequence_id, i as int),
            decreases n - i,
        {
            let matched = match (self.sequence_ids[i], self.word_ids[i]) {
                (Some(s), Some(w)) => s == sequence_id && w == word,
                _ => false,
            };
            if matched {
                proof {
                    assert(self.word_match(i as int, word, sequence_id));
                }
                let off = self.offsets[i];
                acc = match acc {
                    None => Some(off),
                    Some(span) => Some(
                        (
                            if off.0 < span.0 {
                                off.0
                            } else {
                                span.0
                            },
                            if off.1 > span.1 {
                                off.1
                            } else {
                                span.1
                            },
                        ),
                    ),
                };
            } else {
                proof {
                    assert(!self.word_match(i as int, word, sequence_id));
                }
            }
            i = i + 1;
            proof {
                assert(acc == self.word_span(word, sequence_id, i as int));
            }
        }
        Ok(acc)
    }
}

/// Length invariant: in a well-formed encoding every per-token array has
/// length equal to the length of `ids`, and the same holds inside every
/// overflow entry.
pub proof fn lemma_length_invariant(e: Encoding)
    requires
        e.wf(),
    ensures
        e.type_ids_seq().len() == e.spec_len(),
        e.tokens_seq().len() == e.spec_len(),
        e.offsets_seq().len() == e.spec_len(),
        e.word_ids_seq().len() == e.spec_len(),
        e.special_tokens_mask_seq().len() == e.spec_len(),
        e.attention_mask_seq().len() == e.spec_len(),
        e.sequence_ids_seq().len() == e.spec_len(),
        forall|i: int|
            0 <= i < e.overflow_seq().len() ==> {
                let c = #[trigger] e.overflow_seq()[i];
                c.type_ids_seq().len() == c.spec_len() && c.tokens_seq().len() == c.spec_len()
                    && c.offsets_seq().len() == c.spec_len() && c.word_ids_seq().len()
                    == c.spec_len() && c.special_tokens_mask_seq().len() == c.spec_len()
                    && c.attention_mask_seq().len() == c.spec_len() && c.sequence_ids_seq().len()
                    == c.spec_len()
            },
{
}

/// Round-trip coordinate mapping: a token `t` carrying word `word` in
/// sequence `sequence_id` lies inside the token range that
/// `word_to_tokens(word, sequence_id)` reports, and `token_to_word(t)`
/// reports exactly `(sequence_id, word)`.
pub proof fn lemma_word_token_round_trip(e: Encoding, t: usize, word: u32, sequence_id: u32)
    requires
        e.wf(),
        e.is_populated(),
        (t as int) < e.spec_len(),
        e.word_ids_seq()[t as int] == Some(word),
        e.sequence_ids_seq()[t as int] == Some(sequence_id),
    ensures
        e.spec_word_to_tokens(word, sequence_id) matches Some(range) && range.0 <= t < range.1,
        e.spec_token_to_word(t) == Some((sequence_id, word)),
{
    e.lemma_first_word_match_le(word, sequence_id, 0, t as int);
    e.lemma_last_word_match_ge(word, sequence_id, e.spec_len() as int - 1, t as int);
}

/// Char coverage: a non-padding, non-special token `t` of sequence
/// `sequence_id` with offsets `(a, b)` is the token that
/// `char_to_token(pos, sequence_id)` reports for every position `pos` in
/// `[a, b)`, provided no other token of the same sequence covers `pos`.
pub proof fn lemma_char_coverage(e: Encoding, t: usize, pos: usize, sequence_id: u32)
    requires
        e.wf(),
        e.is_populated(),
        (t as int) < e.spec_len(),
        e.sequence_ids_seq()[t as int] == Some(sequence_id),
        e.special_tokens_mask_seq()[t as int] == 0,
        e.attention_mask_seq()[t as int] == 1,
        e.offsets_seq()[t as int].0 <= pos < e.offsets_seq()[t as int].1,
        forall|u: int| #![auto]
            0 <= u < e.spec_len() && u != t as int && e.sequence_ids_seq()[u] == Some(sequence_id)
                ==> !(e.offsets_seq()[u].0 <= pos < e.offsets_seq()[u].1),
    ensures
        e.spec_char_to_token(pos, sequence_id) == Some(t),
{
    assert forall|j: int| 0 <= j < t as int implies !e.token_covers(j, pos, sequence_id) by {
        if e.sequence_ids_seq()[j] == Some(sequence_id) {
            assert(!(e.offsets_seq()[j].0 <= pos < e.offsets_seq()[j].1));
        }
    }
    e.lemma_char_search_finds(pos, sequence_id, 0, t as int);
}

impl Default for Encoding {
    /// The default encoding is unpopulated.
    fn default() -> (r: Encoding)
        ensures
            r.wf(),
            !r.is_populated(),
            r.spec_len() == 0,
    {
        Encoding::new()
    }
}

} // verus!
