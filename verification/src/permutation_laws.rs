//! What holds of permutations: a permutation holds every index below its
//! size, scattering undoes gathering and gathering undoes scattering, and
//! the conversion between two permutations turns what the first gathered
//! into what the second gathers.

use vstd::prelude::*;
use vstd::set_lib::{lemma_int_range, lemma_subset_equality, set_int_range};
use crate::bits::{bits_of, lemma_bits_of_bytes_of, lemma_bytes_of_bits_of};
use crate::permutations::{
    depermuted_block,
    gather,
    is_permutation,
    last_position,
    permutation_conversion,
    permuted_block,
    position_of,
    scatter,
    scatter_bits,
};

verus! {

/// The last position of `q` is a position below `n` at which `p` holds `q`,
/// where there is one.
pub proof fn lemma_last_position(p: Seq<usize>, q: int, n: int)
    ensures
        -1 <= last_position(p, q, n),
        n > 0 ==> last_position(p, q, n) < n,
        last_position(p, q, n) >= 0 ==> p[last_position(p, q, n)] == q,
        forall|i: int| last_position(p, q, n) < i < n ==> p[i] != q,
    decreases n,
{
    if n > 0 {
        lemma_last_position(p, q, n - 1);
    }
}

/// Every index below the size of a permutation occurs in it.
pub proof fn lemma_permutation_onto(p: Seq<usize>)
    requires
        is_permutation(p),
    ensures
        forall|v: usize| v < p.len() ==> #[trigger] p.contains(v),
{
    let n = p.len() as int;
    let entries = p.map_values(|v: usize| v as int);
    assert(entries.no_duplicates());
    entries.unique_seq_to_set();
    lemma_int_range(0, n);
    let indices = set_int_range(0, n);
    assert(entries.to_set().subset_of(indices)) by {
        assert forall|v: int| entries.to_set().contains(v) implies indices.contains(v) by {
            let i = choose|i: int| 0 <= i < entries.len() && entries[i] == v;
            assert(entries[i] == p[i]);
        }
    }
    vstd::seq_lib::seq_to_set_is_finite(entries);
    lemma_subset_equality(entries.to_set(), indices);
    assert forall|v: usize| v < p.len() implies #[trigger] p.contains(v) by {
        assert(indices.contains(v as int));
        assert(entries.to_set().contains(v as int));
        let i = choose|i: int| 0 <= i < entries.len() && entries[i] == v as int;
        assert(p[i] == v);
    }
}

/// In a permutation every index has its position, and only one.
pub proof fn lemma_position_of(p: Seq<usize>)
    requires
        is_permutation(p),
    ensures
        forall|i: int| 0 <= i < p.len() ==> position_of(p, #[trigger] p[i]) == i,
        forall|v: usize|
            v < p.len() ==> #[trigger] position_of(p, v) < p.len() && p[position_of(p, v) as int] == v,
{
    lemma_permutation_onto(p);
    assert forall|v: usize| v < p.len() implies #[trigger] position_of(p, v) < p.len() && p[position_of(
        p,
        v,
    ) as int] == v by {
        assert(p.contains(v));
        let i = choose|i: int| 0 <= i < p.len() && p[i] == v;
        let at = i as nat;
        assert(at < p.len() && p[at as int] == v);
    }
    assert forall|i: int| 0 <= i < p.len() implies position_of(p, #[trigger] p[i]) == i by {
        let at = i as nat;
        assert(at < p.len() && p[at as int] == p[i]);
        let j = position_of(p, p[i]);
        assert(j < p.len() && p[j as int] == p[i]);
    }
}

/// The conversion between two permutations of one size is a permutation, and
/// gathering by the old one and then by the conversion is gathering by the
/// new one.
pub proof fn lemma_conversion(old_permutation: Seq<usize>, new_permutation: Seq<usize>)
    requires
        is_permutation(old_permutation),
        is_permutation(new_permutation),
        old_permutation.len() == new_permutation.len(),
    ensures
        is_permutation(permutation_conversion(old_permutation, new_permutation)),
        permutation_conversion(old_permutation, new_permutation).len() == new_permutation.len(),
        gather(old_permutation, permutation_conversion(old_permutation, new_permutation)) == new_permutation,
{
    let c = permutation_conversion(old_permutation, new_permutation);
    lemma_position_of(old_permutation);
    assert forall|j: int| 0 <= j < c.len() implies c[j] < c.len() && old_permutation[c[j] as int]
        == new_permutation[j] by {
        let v = new_permutation[j];
        assert(v < old_permutation.len());
        let at = position_of(old_permutation, v);
        assert(at < old_permutation.len() && old_permutation[at as int] == v);
        assert(c[j] == at as usize);
    }
    assert forall|i: int, j: int| 0 <= i < j < c.len() implies c[i] != c[j] by {
        assert(old_permutation[c[i] as int] == new_permutation[i]);
        assert(old_permutation[c[j] as int] == new_permutation[j]);
    }
    assert(gather(old_permutation, c) =~= new_permutation);
}

/// Scattering by a permutation undoes gathering by it, and gathering undoes
/// scattering, on every list of its size.
pub proof fn lemma_scatter_gather<T>(x: Seq<T>, p: Seq<usize>)
    requires
        is_permutation(p),
        x.len() == p.len(),
    ensures
        scatter(gather(x, p), p) == x,
        gather(scatter(x, p), p) == x,
{
    let n = p.len() as int;
    lemma_permutation_onto(p);
    assert forall|q: int| 0 <= q < n implies scatter(gather(x, p), p)[q] == x[q] by {
        lemma_last_position(p, q, n);
        assert(p.contains(q as usize));
    }
    assert(scatter(gather(x, p), p) =~= x);
    assert forall|j: int| 0 <= j < n implies gather(scatter(x, p), p)[j] == x[j] by {
        lemma_last_position(p, p[j] as int, n);
    }
    assert(gather(scatter(x, p), p) =~= x);
}

/// Scattering bits by a permutation undoes gathering them by it, and
/// gathering undoes scattering, on every bit string of its size.
pub proof fn lemma_scatter_gather_bits(x: Seq<bool>, p: Seq<usize>)
    requires
        is_permutation(p),
        x.len() == p.len(),
    ensures
        scatter_bits(gather(x, p), p) == x,
        gather(scatter_bits(x, p), p) == x,
{
    let n = p.len() as int;
    lemma_permutation_onto(p);
    let y = gather(x, p);
    assert forall|q: int| 0 <= q < n implies scatter_bits(y, p)[q] == x[q] by {
        assert(p.contains(q as usize));
        let i = choose|i: int| 0 <= i < p.len() && p[i] == q as usize;
        assert(y[i] == x[q]);
        if x[q] {
            assert(0 <= i < n && p[i] == q && y[i]);
        }
    }
    assert(scatter_bits(y, p) =~= x);
    let z = scatter_bits(x, p);
    assert forall|j: int| 0 <= j < n implies gather(z, p)[j] == x[j] by {
        if x[j] {
            assert(0 <= j < n && p[j] == p[j] as int && x[j]);
        }
    }
    assert(gather(z, p) =~= x);
}

/// The bits of a permuted block are the gathered bits of the block, and the
/// block keeps its size.
pub proof fn lemma_permuted_block_bits(block: Seq<u8>, key: Seq<usize>)
    requires
        key.len() == 8 * block.len(),
    ensures
        bits_of(permuted_block(block, key)) == gather(bits_of(block), key),
        permuted_block(block, key).len() == block.len(),
{
    reveal(permuted_block);
    lemma_bits_of_bytes_of(gather(bits_of(block), key));
}

/// Putting the bits of a block back by a permutation undoes permuting them
/// by it, and permuting undoes putting back, for every block and every
/// permutation of as many indices as the block has bits.
pub proof fn lemma_depermute_permute(block: Seq<u8>, key: Seq<usize>)
    requires
        is_permutation(key),
        key.len() == 8 * block.len(),
    ensures
        depermuted_block(permuted_block(block, key), key) == block,
        permuted_block(depermuted_block(block, key), key) == block,
{
    reveal(permuted_block);
    reveal(depermuted_block);
    let bits = bits_of(block);
    lemma_scatter_gather_bits(bits, key);
    lemma_bits_of_bytes_of(gather(bits, key));
    lemma_bits_of_bytes_of(scatter_bits(bits, key));
    lemma_bytes_of_bits_of(block);
}

/// Permuting the bits of a block by one permutation and then by the
/// conversion to another is permuting them by the other.
pub proof fn lemma_permute_converted(block: Seq<u8>, old_permutation: Seq<usize>, new_permutation: Seq<usize>)
    requires
        is_permutation(old_permutation),
        is_permutation(new_permutation),
        old_permutation.len() == new_permutation.len(),
        old_permutation.len() == 8 * block.len(),
    ensures
        permuted_block(
            permuted_block(block, old_permutation),
            permutation_conversion(old_permutation, new_permutation),
        ) == permuted_block(block, new_permutation),
{
    reveal(permuted_block);
    let c = permutation_conversion(old_permutation, new_permutation);
    lemma_conversion(old_permutation, new_permutation);
    let bits = bits_of(block);
    lemma_bits_of_bytes_of(gather(bits, old_permutation));
    assert forall|j: int| 0 <= j < c.len() implies gather(gather(bits, old_permutation), c)[j] == gather(
        bits,
        new_permutation,
    )[j] by {
        assert(gather(old_permutation, c)[j] == new_permutation[j]);
    }
    assert(gather(gather(bits, old_permutation), c) =~= gather(bits, new_permutation));
}

/// Reordering a list by one permutation and then by the conversion to
/// another is reordering it by the other.
pub proof fn lemma_gather_converted<T>(x: Seq<T>, old_permutation: Seq<usize>, new_permutation: Seq<usize>)
    requires
        is_permutation(old_permutation),
        is_permutation(new_permutation),
        old_permutation.len() == new_permutation.len(),
    ensures
        gather(gather(x, old_permutation), permutation_conversion(old_permutation, new_permutation)) == gather(
            x,
            new_permutation,
        ),
{
    let c = permutation_conversion(old_permutation, new_permutation);
    lemma_conversion(old_permutation, new_permutation);
    assert forall|j: int| 0 <= j < c.len() implies gather(gather(x, old_permutation), c)[j] == gather(
        x,
        new_permutation,
    )[j] by {
        assert(gather(old_permutation, c)[j] == new_permutation[j]);
    }
    assert(gather(gather(x, old_permutation), c) =~= gather(x, new_permutation));
}

/// The bits of a depermuted block are the scattered bits of the block, and
/// the block keeps its size.
pub proof fn lemma_depermuted_block_bits(block: Seq<u8>, key: Seq<usize>)
    ensures
        bits_of(depermuted_block(block, key)) == scatter_bits(bits_of(block), key),
        depermuted_block(block, key).len() == block.len(),
{
    reveal(depermuted_block);
    lemma_bits_of_bytes_of(scatter_bits(bits_of(block), key));
}

/// Two different blocks stay different when a permutation permutes their
/// bits, and when it puts them back.
pub proof fn lemma_permuted_blocks_differ(a: Seq<u8>, b: Seq<u8>, key: Seq<usize>)
    requires
        is_permutation(key),
        key.len() == 8 * a.len(),
        a.len() == b.len(),
        a != b,
    ensures
        permuted_block(a, key) != permuted_block(b, key),
        depermuted_block(a, key) != depermuted_block(b, key),
{
    lemma_depermute_permute(a, key);
    lemma_depermute_permute(b, key);
}

} // verus!
