//! What holds of sparse coding: only the symbols at the kept positions are coded, and the
//! mask that tells those positions goes along.
use crate::coder::{decoding, encodable, encoding, Tables};
use crate::coder_laws::{decoding_undoes_encoding, separable};
use crate::mask::{mask_code, mask_read, MaskError};
use crate::mask_laws::mask_is_read_back;
use vstd::prelude::*;

verus! {

/// The elements of `s` at the positions that `mask` keeps.
pub open spec fn kept<T>(s: Seq<T>, mask: Seq<bool>) -> Seq<T>
    decreases mask.len(),
{
    if mask.len() == 0 {
        Seq::empty()
    } else {
        let rest = kept(s, mask.drop_last());
        if mask.last() {
            rest.push(s[mask.len() - 1])
        } else {
            rest
        }
    }
}

/// `base`, with `values` put in order at the positions that `mask` keeps.
pub open spec fn scattered<T>(values: Seq<T>, mask: Seq<bool>, base: Seq<T>) -> Seq<T>
    decreases mask.len(),
{
    if mask.len() == 0 {
        Seq::empty()
    } else if mask.last() {
        scattered(values.drop_last(), mask.drop_last(), base).push(values.last())
    } else {
        scattered(values, mask.drop_last(), base).push(base[mask.len() - 1])
    }
}

/// Scattering the kept elements puts each back at its position.
pub proof fn scattering_undoes_keeping<T>(s: Seq<T>, mask: Seq<bool>, base: Seq<T>)
    requires
        mask.len() <= s.len(),
        mask.len() <= base.len(),
    ensures
        scattered(kept(s, mask), mask, base).len() == mask.len(),
        forall|i: int|
            0 <= i < mask.len() ==> #[trigger] scattered(kept(s, mask), mask, base)[i] == if mask[i] {
                s[i]
            } else {
                base[i]
            },
    decreases mask.len(),
{
    if mask.len() > 0 {
        let shorter = mask.drop_last();
        scattering_undoes_keeping(s, shorter, base);
        if mask.last() {
            assert(kept(s, mask).drop_last() =~= kept(s, shorter));
        }
    }
}

/// Dropping positions leaves symbols that can be coded.
proof fn lemma_kept_encodable(symbols: Seq<i32>, indexes: Seq<i32>, mask: Seq<bool>, t: Tables)
    requires
        mask.len() <= symbols.len(),
        encodable(symbols, indexes, t),
        separable(symbols, indexes, t),
    ensures
        kept(symbols, mask).len() == kept(indexes, mask).len(),
        encodable(kept(symbols, mask), kept(indexes, mask), t),
        separable(kept(symbols, mask), kept(indexes, mask), t),
    decreases mask.len(),
{
    if mask.len() > 0 {
        lemma_kept_encodable(symbols, indexes, mask.drop_last(), t);
        assert(t.has(indexes[mask.len() - 1]));
        let ks = kept(symbols, mask);
        let ki = kept(indexes, mask);
        let before = kept(indexes, mask.drop_last());
        assert forall|j: int| 0 <= j < ks.len() implies t.has(#[trigger] ki[j]) && t.row(
            ki[j],
        ).encodable(ks[j]) && t.row(ki[j]).separates(t.row(ki[j]).slot(ks[j])) by {
            if j < before.len() {
                assert(ki[j] == before[j]);
            }
        }
    }
}

/// Sparse coding is lossless: the mask is read back, the kept symbols are decoded with the
/// kept indexes, and scattering them puts each back at its position.
pub proof fn kept_symbols_are_transported(
    symbols: Seq<i32>,
    indexes: Seq<i32>,
    t: Tables,
    mask: Seq<bool>,
    base: Seq<i32>,
)
    requires
        mask.len() == symbols.len() == base.len(),
        mask.len() <= usize::MAX,
        encodable(symbols, indexes, t),
        separable(symbols, indexes, t),
    ensures
        encodable(kept(symbols, mask), kept(indexes, mask), t),
        mask_read(mask_code(mask)) == Ok::<Seq<bool>, MaskError>(mask),
        decoding(
            encoding(kept(symbols, mask), kept(indexes, mask), t),
            kept(indexes, mask),
            t,
        ) == Some(kept(symbols, mask)),
        forall|i: int|
            0 <= i < mask.len() ==> #[trigger] scattered(kept(symbols, mask), mask, base)[i]
                == if mask[i] {
                symbols[i]
            } else {
                base[i]
            },
{
    lemma_kept_encodable(symbols, indexes, mask, t);
    let ki = kept(indexes, mask);
    decoding_undoes_encoding(kept(symbols, mask), ki, t);
    assert(ki.take(ki.len() as int) =~= ki);
    mask_is_read_back(mask, Seq::empty());
    assert(mask_code(mask) + Seq::<u8>::empty() =~= mask_code(mask));
    scattering_undoes_keeping(symbols, mask, base);
}

} // verus!
