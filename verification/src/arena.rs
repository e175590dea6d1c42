//! The arena: the address-ordered chunk chain and the operations on it.
//!
//! The arena owns every chunk header as one ascending sequence.  Allocation
//! walks the chain first-fit and splits the first free chunk that can host
//! the request; deallocation frees the owning chunk and eagerly coalesces it
//! with address-adjacent free neighbours, so that no two adjacent chunks are
//! ever both free.  Growth ingests one more usable memory range, handed in
//! by whoever parses the firmware memory map.

use vstd::prelude::*;
use vstd::arithmetic::power2::is_pow2;
use vstd::arithmetic::div_mod::lemma_add_mod_noop;
use crate::chunk::{
    Header, HEADER_SIZE, chunk_wf, norm_size, norm_align, size_in_range, alloc_addr_for,
    split_pieces, lemma_split_properties,
};
use crate::err::AllocError;
use crate::pow2::round_up_to_nearest_pow2;

verus! {

/// Byte count of a whole-page request, for callers that need physical
/// pages: ask for `PAGE_4K_SIZE` bytes at `PAGE_4K_ALIGN` alignment.
pub const PAGE_4K_SIZE: usize = 4096;

/// Alignment of a whole-page request.
pub const PAGE_4K_ALIGN: usize = 4096;

/// Whether chunk `b` starts exactly where chunk `a` ends.
pub open spec fn adjacent(a: Header, b: Header) -> bool {
    a.addr + a.size == b.addr
}

/// The chain invariant: every chunk is well formed and the chunks are laid
/// out in strictly ascending address order without overlap.  Chunks from the
/// same backing range touch; a gap marks the boundary between two ranges.
pub open spec fn chain_wf(s: Seq<Header>) -> bool {
    &&& (forall|i: int| 0 <= i < s.len() ==> chunk_wf(#[trigger] s[i]))
    &&& (forall|i: int|
        0 <= i < s.len() - 1 ==> (#[trigger] s[i]).addr + s[i].size <= s[i + 1].addr)
}

/// The coalescing invariant: no two chunks that touch are both free.
pub open spec fn no_adjacent_free(s: Seq<Header>) -> bool {
    forall|i: int|
        0 <= i < s.len() - 1 && adjacent(s[i], #[trigger] s[i + 1]) ==> s[i].allocated
            || s[i + 1].allocated
}

/// Every chunk ends at or before the start of every later chunk.
pub proof fn lemma_chain_end_before(s: Seq<Header>, k: int, l: int)
    requires
        chain_wf(s),
        0 <= k < l < s.len(),
    ensures
        s[k].addr + s[k].size <= s[l].addr,
    decreases l - k,
{
    if k + 1 < l {
        lemma_chain_end_before(s, k + 1, l);
    }
}

/// Whether the free chunk `c` can host a normalized request.
pub open spec fn fits(c: Header, nsize: int, nalign: int) -> bool {
    !c.allocated && c.spec_can_provide(nsize, nalign)
}

/// Index of the first chunk that can host the request, if any.
pub open spec fn find_fit(s: Seq<Header>, nsize: int, nalign: int) -> Option<int>
    decreases s.len(),
{
    if s.len() == 0 {
        None
    } else if fits(s[0], nsize, nalign) {
        Some(0)
    } else {
        match find_fit(s.drop_first(), nsize, nalign) {
            Some(i) => Some(i + 1),
            None => None,
        }
    }
}

/// A successful `find_fit` names a chunk that indeed fits.
pub proof fn lemma_find_fit_some(s: Seq<Header>, nsize: int, nalign: int)
    requires
        find_fit(s, nsize, nalign) is Some,
    ensures
        ({
            let i = find_fit(s, nsize, nalign).unwrap();
            0 <= i < s.len() && fits(s[i], nsize, nalign)
        }),
    decreases s.len(),
{
    if s.len() > 0 && !fits(s[0], nsize, nalign) {
        lemma_find_fit_some(s.drop_first(), nsize, nalign);
    }
}

/// `find_fit` returns the first fitting index.
pub proof fn lemma_find_fit_first(s: Seq<Header>, nsize: int, nalign: int, i: int)
    requires
        0 <= i < s.len(),
        fits(s[i], nsize, nalign),
        forall|j: int| 0 <= j < i ==> !fits(#[trigger] s[j], nsize, nalign),
    ensures
        find_fit(s, nsize, nalign) == Some(i),
    decreases i,
{
    if i > 0 {
        lemma_find_fit_first(s.drop_first(), nsize, nalign, i - 1);
    }
}

/// When no chunk fits, `find_fit` says so.
pub proof fn lemma_find_fit_none(s: Seq<Header>, nsize: int, nalign: int)
    requires
        forall|j: int| 0 <= j < s.len() ==> !fits(#[trigger] s[j], nsize, nalign),
    ensures
        find_fit(s, nsize, nalign) is None,
    decreases s.len(),
{
    if s.len() > 0 {
        lemma_find_fit_none(s.drop_first(), nsize, nalign);
    }
}

/// Index of the first chunk whose header sits at `haddr`, if any.
pub open spec fn find_chunk(s: Seq<Header>, haddr: int) -> Option<int>
    decreases s.len(),
{
    if s.len() == 0 {
        None
    } else if s[0].addr == haddr {
        Some(0)
    } else {
        match find_chunk(s.drop_first(), haddr) {
            Some(i) => Some(i + 1),
            None => None,
        }
    }
}

/// `find_chunk` returns the first matching index.
pub proof fn lemma_find_chunk_first(s: Seq<Header>, haddr: int, i: int)
    requires
        0 <= i < s.len(),
        s[i].addr == haddr,
        forall|j: int| 0 <= j < i ==> (#[trigger] s[j]).addr != haddr,
    ensures
        find_chunk(s, haddr) == Some(i),
    decreases i,
{
    if i > 0 {
        lemma_find_chunk_first(s.drop_first(), haddr, i - 1);
    }
}

/// When no chunk header sits at `haddr`, `find_chunk` says so.
pub proof fn lemma_find_chunk_none(s: Seq<Header>, haddr: int)
    requires
        forall|j: int| 0 <= j < s.len() ==> (#[trigger] s[j]).addr != haddr,
    ensures
        find_chunk(s, haddr) is None,
    decreases s.len(),
{
    if s.len() > 0 {
        lemma_find_chunk_none(s.drop_first(), haddr);
    }
}

/// Splitting one fitting chunk preserves both chain invariants: the
/// replacement chunks partition the old chunk exactly, so the chain still
/// ascends without overlap, and the one allocated piece separates the two
/// free pieces from each other and from any free neighbour.
pub proof fn lemma_split_chain(s: Seq<Header>, i: int, size: int, align: int)
    requires
        chain_wf(s),
        no_adjacent_free(s),
        0 <= i < s.len(),
        is_pow2(align),
        size_in_range(size),
        fits(s[i], norm_size(size), norm_align(align)),
    ensures
        ({
            let t = s.take(i) + split_pieces(s[i], norm_size(size), norm_align(align)) + s.skip(
                i + 1,
            );
            &&& chain_wf(t)
            &&& no_adjacent_free(t)
            &&& t.len() == s.len() + split_pieces(s[i], norm_size(size), norm_align(align)).len()
                - 1
        }),
{
    let ns = norm_size(size);
    let na = norm_align(align);
    lemma_split_properties(s[i], size, align);
    let ps = split_pieces(s[i], ns, na);
    let m = ps.len() as int;
    let t = s.take(i) + ps + s.skip(i + 1);
    assert(t.len() == s.len() + m - 1);
    assert forall|j: int| 0 <= j < t.len() implies chunk_wf(#[trigger] t[j]) by {
        if j < i {
            assert(t[j] == s[j]);
        } else if j < i + m {
            assert(t[j] == ps[j - i]);
        } else {
            assert(t[j] == s[j - m + 1]);
        }
    }
    assert forall|j: int|
        0 <= j < t.len() - 1 implies (#[trigger] t[j]).addr + t[j].size <= t[j + 1].addr by {
        if j + 1 < i {
            assert(t[j] == s[j] && t[j + 1] == s[j + 1]);
        } else if j + 1 == i {
            assert(t[j] == s[j] && t[j + 1] == ps[0]);
            assert(s[j].addr + s[j].size <= s[i].addr);
        } else if j + 1 < i + m {
            assert(t[j] == ps[j - i] && t[j + 1] == ps[j + 1 - i]);
        } else if j + 1 == i + m {
            assert(t[j] == ps[m - 1] && t[j + 1] == s[i + 1]);
            assert(ps[m - 1].addr + ps[m - 1].size == s[i].addr + s[i].size);
            assert(s[i].addr + s[i].size <= s[i + 1].addr);
        } else {
            assert(t[j] == s[j - m + 1] && t[j + 1] == s[j - m + 2]);
            assert(s[j - m + 1].addr + s[j - m + 1].size <= s[j - m + 2].addr);
        }
    }
    assert forall|j: int|
        0 <= j < t.len() - 1 && adjacent(t[j], #[trigger] t[j + 1]) implies t[j].allocated || t[j
        + 1].allocated by {
        if j + 1 < i {
            assert(t[j] == s[j] && t[j + 1] == s[j + 1]);
            assert(adjacent(s[j], s[j + 1]));
        } else if j + 1 == i {
            assert(t[j] == s[j] && t[j + 1] == ps[0]);
            assert(ps[0].addr == s[i].addr);
            assert(adjacent(s[j], s[i]));
            assert(s[j].allocated);
        } else if j + 1 < i + m {
            assert(t[j] == ps[j - i] && t[j + 1] == ps[j + 1 - i]);
        } else if j + 1 == i + m {
            assert(t[j] == ps[m - 1] && t[j + 1] == s[i + 1]);
            if m == 3 && adjacent(ps[2], s[i + 1]) {
                assert(ps[2].addr + ps[2].size == s[i].addr + s[i].size);
                assert(adjacent(s[i], s[i + 1]));
                assert(s[i + 1].allocated);
            }
        } else {
            assert(t[j] == s[j - m + 1] && t[j + 1] == s[j - m + 2]);
            assert(adjacent(s[j - m + 1], s[j - m + 2]));
        }
    }
}

/// The chunk `c` with its allocated mark cleared.
pub open spec fn free_chunk(c: Header) -> Header {
    Header { addr: c.addr, size: c.size, allocated: false }
}

/// Whether chunk `j`, once freed, coalesces with its successor.
pub open spec fn merges_forward(s: Seq<Header>, j: int) -> bool {
    j + 1 < s.len() && !s[j + 1].allocated && adjacent(s[j], s[j + 1])
}

/// Whether chunk `j`, once freed, coalesces with its predecessor.
pub open spec fn merges_backward(s: Seq<Header>, j: int) -> bool {
    j >= 1 && !s[j - 1].allocated && adjacent(s[j - 1], s[j])
}

/// The chain after chunk `j` is freed and eagerly coalesced with every free
/// neighbour it touches, in both directions.
pub open spec fn spec_free_at(s: Seq<Header>, j: int) -> Seq<Header> {
    let fwd = merges_forward(s, j);
    let bwd = merges_backward(s, j);
    if fwd && bwd {
        s.take(j - 1) + seq![
            Header {
                addr: s[j - 1].addr,
                size: (s[j - 1].size + s[j].size + s[j + 1].size) as usize,
                allocated: false,
            },
        ] + s.skip(j + 2)
    } else if fwd {
        s.take(j) + seq![
            Header {
                addr: s[j].addr,
                size: (s[j].size + s[j + 1].size) as usize,
                allocated: false,
            },
        ] + s.skip(j + 2)
    } else if bwd {
        s.take(j - 1) + seq![
            Header {
                addr: s[j - 1].addr,
                size: (s[j - 1].size + s[j].size) as usize,
                allocated: false,
            },
        ] + s.skip(j + 1)
    } else {
        s.update(j, free_chunk(s[j]))
    }
}

/// Freeing a chunk and coalescing preserves both chain invariants: the
/// merged chunk spans exactly what the merged-away chunks spanned, and each
/// of its surviving neighbours, where it touches the merged chunk, was
/// already the allocated partner of an old touching pair.
#[verifier::rlimit(100)]
pub proof fn lemma_free_chain(s: Seq<Header>, j: int)
    requires
        chain_wf(s),
        no_adjacent_free(s),
        0 <= j < s.len(),
        s[j].allocated,
    ensures
        ({
            let t = spec_free_at(s, j);
            &&& chain_wf(t)
            &&& no_adjacent_free(t)
            &&& t.len() == s.len() - (if merges_forward(s, j) {
                1int
            } else {
                0int
            }) - (if merges_backward(s, j) {
                1int
            } else {
                0int
            })
        }),
{
    let t = spec_free_at(s, j);
    let fwd = merges_forward(s, j);
    let bwd = merges_backward(s, j);
    if fwd {
        lemma_add_mod_noop(s[j].size as int, s[j + 1].size as int, HEADER_SIZE as int);
    }
    if bwd {
        lemma_add_mod_noop(s[j - 1].size as int, s[j].size as int, HEADER_SIZE as int);
    }
    if fwd && bwd {
        lemma_add_mod_noop(
            s[j - 1].size as int,
            (s[j].size + s[j + 1].size) as int,
            HEADER_SIZE as int,
        );
        let m = Header {
            addr: s[j - 1].addr,
            size: (s[j - 1].size + s[j].size + s[j + 1].size) as usize,
            allocated: false,
        };
        assert(chunk_wf(s[j - 1]) && chunk_wf(s[j]) && chunk_wf(s[j + 1]));
        assert(m.addr + m.size == s[j + 1].addr + s[j + 1].size);
        assert(chunk_wf(m));
        assert forall|k: int| 0 <= k < t.len() implies #[trigger] t[k] == (
        if k < j - 1 {
            s[k]
        } else if k == j - 1 {
            m
        } else {
            s[k + 2]
        }) by {}
        assert forall|k: int|
            0 <= k < t.len() - 1 implies (#[trigger] t[k]).addr + t[k].size <= t[k + 1].addr by {
            if k + 1 < j - 1 {
                assert(s[k].addr + s[k].size <= s[k + 1].addr);
            } else if k + 1 == j - 1 {
                assert(s[k].addr + s[k].size <= s[k + 1].addr);
            } else if k == j - 1 {
                if j + 2 < s.len() {
                    assert(s[j + 1].addr + s[j + 1].size <= s[j + 2].addr);
                }
            } else {
                assert(s[k + 2].addr + s[k + 2].size <= s[k + 3].addr);
            }
        }
        assert forall|k: int|
            0 <= k < t.len() - 1 && adjacent(t[k], #[trigger] t[k + 1]) implies t[k].allocated
            || t[k + 1].allocated by {
            if k + 1 < j - 1 {
                assert(adjacent(s[k], s[k + 1]));
            } else if k + 1 == j - 1 {
                assert(adjacent(s[k], s[j - 1]));
                assert(!s[j - 1].allocated);
            } else if k == j - 1 {
                assert(adjacent(s[j + 1], s[j + 2]));
                assert(!s[j + 1].allocated);
            } else {
                assert(adjacent(s[k + 2], s[k + 3]));
            }
        }
    } else if fwd {
        let m = Header {
            addr: s[j].addr,
            size: (s[j].size + s[j + 1].size) as usize,
            allocated: false,
        };
        assert(chunk_wf(s[j]) && chunk_wf(s[j + 1]));
        assert(m.addr + m.size == s[j + 1].addr + s[j + 1].size);
        assert(chunk_wf(m));
        assert forall|k: int| 0 <= k < t.len() implies #[trigger] t[k] == (
        if k < j {
            s[k]
        } else if k == j {
            m
        } else {
            s[k + 1]
        }) by {}
        assert forall|k: int|
            0 <= k < t.len() - 1 implies (#[trigger] t[k]).addr + t[k].size <= t[k + 1].addr by {
            if k + 1 < j {
                assert(s[k].addr + s[k].size <= s[k + 1].addr);
            } else if k + 1 == j {
                assert(s[k].addr + s[k].size <= s[k + 1].addr);
            } else if k == j {
                if j + 2 < s.len() {
                    assert(s[j + 1].addr + s[j + 1].size <= s[j + 2].addr);
                }
            } else {
                assert(s[k + 1].addr + s[k + 1].size <= s[k + 2].addr);
            }
        }
        assert forall|k: int|
            0 <= k < t.len() - 1 && adjacent(t[k], #[trigger] t[k + 1]) implies t[k].allocated
            || t[k + 1].allocated by {
            if k + 1 < j {
                assert(adjacent(s[k], s[k + 1]));
            } else if k + 1 == j {
                assert(adjacent(s[k], s[j]));
                assert(s[k].allocated);
            } else if k == j {
                assert(adjacent(s[j + 1], s[j + 2]));
                assert(!s[j + 1].allocated);
            } else {
                assert(adjacent(s[k + 1], s[k + 2]));
            }
        }
    } else if bwd {
        let m = Header {
            addr: s[j - 1].addr,
            size: (s[j - 1].size + s[j].size) as usize,
            allocated: false,
        };
        assert(chunk_wf(s[j - 1]) && chunk_wf(s[j]));
        assert(m.addr + m.size == s[j].addr + s[j].size);
        assert(chunk_wf(m));
        assert forall|k: int| 0 <= k < t.len() implies #[trigger] t[k] == (
        if k < j - 1 {
            s[k]
        } else if k == j - 1 {
            m
        } else {
            s[k + 1]
        }) by {}
        assert forall|k: int|
            0 <= k < t.len() - 1 implies (#[trigger] t[k]).addr + t[k].size <= t[k + 1].addr by {
            if k + 1 < j - 1 {
                assert(s[k].addr + s[k].size <= s[k + 1].addr);
            } else if k + 1 == j - 1 {
                assert(s[k].addr + s[k].size <= s[k + 1].addr);
            } else if k == j - 1 {
                assert(s[j].addr + s[j].size <= s[j + 1].addr);
            } else {
                assert(s[k + 1].addr + s[k + 1].size <= s[k + 2].addr);
            }
        }
        assert forall|k: int|
            0 <= k < t.len() - 1 && adjacent(t[k], #[trigger] t[k + 1]) implies t[k].allocated
            || t[k + 1].allocated by {
            if k + 1 < j - 1 {
                assert(adjacent(s[k], s[k + 1]));
            } else if k + 1 == j - 1 {
                assert(adjacent(s[k], s[j - 1]));
                assert(!s[j - 1].allocated);
            } else if k == j - 1 {
                assert(adjacent(s[j], s[j + 1]));
                assert(s[j + 1].allocated);
            } else {
                assert(adjacent(s[k + 1], s[k + 2]));
            }
        }
    } else {
        assert forall|k: int| 0 <= k < t.len() implies chunk_wf(#[trigger] t[k]) by {
            if k != j {
                assert(t[k] == s[k]);
            } else {
                assert(chunk_wf(s[j]));
            }
        }
        assert forall|k: int|
            0 <= k < t.len() - 1 implies (#[trigger] t[k]).addr + t[k].size <= t[k + 1].addr by {
            assert(s[k].addr + s[k].size <= s[k + 1].addr);
        }
        assert forall|k: int|
            0 <= k < t.len() - 1 && adjacent(t[k], #[trigger] t[k + 1]) implies t[k].allocated
            || t[k + 1].allocated by {
            if k + 1 == j {
                assert(adjacent(s[k], s[j]));
                assert(s[k].allocated);
            } else if k == j {
                assert(adjacent(s[j], s[j + 1]));
                assert(s[j + 1].allocated);
            } else {
                assert(adjacent(s[k], s[k + 1]));
            }
        }
    }
}

/// Whether the usable range `[start, start + len)` may be added to a chain:
/// header-granular, big enough for one header, representable, and past the
/// end of the current chain.
pub open spec fn can_ingest(s: Seq<Header>, start: int, len: int) -> bool {
    &&& start % (HEADER_SIZE as int) == 0
    &&& len % (HEADER_SIZE as int) == 0
    &&& len >= HEADER_SIZE
    &&& start + len <= usize::MAX
    &&& (s.len() > 0 ==> s.last().addr + s.last().size <= start)
}

/// The chain after adding the range: the new space is folded into a free
/// tail chunk that it touches, otherwise appended as one fresh free chunk.
pub open spec fn spec_ingest(s: Seq<Header>, start: int, len: int) -> Seq<Header> {
    if s.len() > 0 && !s.last().allocated && s.last().addr + s.last().size == start {
        s.update(
            s.len() - 1,
            Header {
                addr: s.last().addr,
                size: (s.last().size + len) as usize,
                allocated: false,
            },
        )
    } else {
        s.push(Header { addr: start as usize, size: len as usize, allocated: false })
    }
}

/// Total bytes held by the free chunks of a chain, headers included.
pub open spec fn total_free(s: Seq<Header>) -> int
    decreases s.len(),
{
    if s.len() == 0 {
        0
    } else {
        (if s[0].allocated {
            0int
        } else {
            s[0].size as int
        }) + total_free(s.drop_first())
    }
}

/// Allocating and then immediately deallocating, with nothing in between,
/// restores the chain exactly.  Freeing the allocated chunk coalesces it
/// with the shrunk original below it and with the padding chunk above it,
/// rebuilding the chunk that was split; in particular the chain's chunk
/// count and its total free size return to their pre-allocation values.
#[verifier::rlimit(100)]
pub proof fn lemma_allocate_deallocate_restores(s: Seq<Header>, size: int, align: int)
    requires
        chain_wf(s),
        no_adjacent_free(s),
        is_pow2(align),
        size_in_range(size),
        find_fit(s, norm_size(size), norm_align(align)) is Some,
    ensures
        ({
            let ns = norm_size(size);
            let na = norm_align(align);
            let i = find_fit(s, ns, na).unwrap();
            let t = s.take(i) + split_pieces(s[i], ns, na) + s.skip(i + 1);
            let a = alloc_addr_for(s[i], ns, na);
            &&& find_chunk(t, a - HEADER_SIZE) == Some(i + 1)
            &&& spec_free_at(t, i + 1) == s
            &&& spec_free_at(t, i + 1).len() == s.len()
            &&& total_free(spec_free_at(t, i + 1)) == total_free(s)
        }),
{
    let ns = norm_size(size);
    let na = norm_align(align);
    lemma_find_fit_some(s, ns, na);
    let i = find_fit(s, ns, na).unwrap();
    lemma_split_properties(s[i], size, align);
    lemma_split_chain(s, i, size, align);
    let ps = split_pieces(s[i], ns, na);
    let m = ps.len() as int;
    let t = s.take(i) + ps + s.skip(i + 1);
    let a = alloc_addr_for(s[i], ns, na);

    assert forall|k: int| 0 <= k < t.len() implies #[trigger] t[k] == (
    if k < i {
        s[k]
    } else if k < i + m {
        ps[k - i]
    } else {
        s[k - m + 1]
    }) by {}

    // the allocated chunk is found at position i + 1: every chunk below it
    // ends at or before its header, so no earlier header matches
    assert(t[i + 1].addr == a - HEADER_SIZE);
    assert forall|k: int| 0 <= k < i + 1 implies (#[trigger] t[k]).addr != a - HEADER_SIZE by {
        lemma_chain_end_before(t, k, i + 1);
        assert(chunk_wf(t[k]));
    }
    lemma_find_chunk_first(t, a - HEADER_SIZE, i + 1);

    // freeing it coalesces downward with the shrunk original, and upward
    // with the padding chunk when there is one
    assert(merges_backward(t, i + 1));
    if m == 3 {
        assert(merges_forward(t, i + 1));
        let f = spec_free_at(t, i + 1);
        assert(t[i].size + t[i + 1].size + t[i + 2].size == s[i].size);
        assert(f == t.take(i) + seq![
            Header { addr: t[i].addr, size: (t[i].size + t[i + 1].size + t[i + 2].size) as usize, allocated: false },
        ] + t.skip(i + 3));
        assert(f =~= s) by {
            assert forall|k: int| 0 <= k < s.len() implies #[trigger] f[k] == s[k] by {
                if k < i {
                    assert(f[k] == t[k]);
                } else if k == i {
                    assert(f[k] == Header { addr: s[i].addr, size: s[i].size, allocated: false });
                    assert(!s[i].allocated);
                } else {
                    assert(f[k] == t.skip(i + 3)[k - i - 1]);
                    assert(t[k + 2] == s[k]);
                }
            }
        }
    } else {
        if i + 2 < t.len() {
            assert(t[i + 2] == s[i + 1]);
            if adjacent(t[i + 1], t[i + 2]) {
                assert(adjacent(s[i], s[i + 1]));
                assert(s[i + 1].allocated);
            }
        }
        assert(!merges_forward(t, i + 1));
        let f = spec_free_at(t, i + 1);
        assert(t[i].size + t[i + 1].size == s[i].size);
        assert(f == t.take(i) + seq![
            Header { addr: t[i].addr, size: (t[i].size + t[i + 1].size) as usize, allocated: false },
        ] + t.skip(i + 2));
        assert(f =~= s) by {
            assert forall|k: int| 0 <= k < s.len() implies #[trigger] f[k] == s[k] by {
                if k < i {
                    assert(f[k] == t[k]);
                } else if k == i {
                    assert(f[k] == Header { addr: s[i].addr, size: s[i].size, allocated: false });
                    assert(!s[i].allocated);
                } else {
                    assert(f[k] == t.skip(i + 2)[k - i - 1]);
                    assert(t[k + 1] == s[k]);
                }
            }
        }
    }
}

/// Process-wide allocator state: the chunk chain, ascending by address.
///
/// The arena itself is single-threaded state; whoever shares it across
/// execution contexts must wrap it in an exclusive guard and treat a nested
/// acquisition as a fatal reentrancy bug.
pub struct Arena {
    chunks: Vec<Header>,
}

impl View for Arena {
    type V = Seq<Header>;

    closed spec fn view(&self) -> Seq<Header> {
        self.chunks@
    }
}

impl Arena {
    /// Both chain invariants together; every public operation preserves them.
    pub open spec fn wf(self) -> bool {
        &&& chain_wf(self@)
        &&& no_adjacent_free(self@)
    }

    /// An arena with no memory yet.
    pub fn new() -> (a: Arena)
        ensures
            a.wf(),
            a@ =~= Seq::<Header>::empty(),
    {
        Arena { chunks: Vec::new() }
    }

    /// Number of chunks currently in the chain.
    pub fn chunk_count(&self) -> (n: usize)
        ensures
            n == self@.len(),
    {
        self.chunks.len()
    }

    /// The chunk at position `i` of the chain.
    pub fn chunk_at(&self, i: usize) -> (c: Header)
        requires
            i < self@.len(),
        ensures
            c == self@[i as int],
    {
        self.chunks[i]
    }

    /// Adds one usable memory range to the chain, reporting whether the
    /// range was acceptable.  A range that exactly continues a free tail
    /// chunk is folded into it, so the coalescing invariant survives
    /// contiguous firmware ranges.
    pub fn ingest_range(&mut self, start: usize, len: usize) -> (r: bool)
        requires
            old(self).wf(),
        ensures
            final(self).wf(),
            r == can_ingest(old(self)@, start as int, len as int),
            (r ==> final(self)@ == spec_ingest(old(self)@, start as int, len as int)),
            (!r ==> *final(self) == *old(self)),
    {
        if start % HEADER_SIZE != 0 || len % HEADER_SIZE != 0 || len < HEADER_SIZE || len
            > usize::MAX - start {
            return false;
        }
        let n = self.chunks.len();
        if n > 0 {
            let last = self.chunks[n - 1];
            if last.addr + last.size > start {
                return false;
            }
            if !last.is_allocated() && last.addr + last.size == start {
                proof {
                    lemma_add_mod_noop(last.size as int, len as int, HEADER_SIZE as int);
                }
                self.chunks[n - 1] = Header {
                    addr: last.addr,
                    size: last.size + len,
                    allocated: false,
                };
                proof {
                    let t = self@;
                    let s = old(self)@;
                    assert forall|i: int| 0 <= i < t.len() implies chunk_wf(#[trigger] t[i]) by {
                        if i < n - 1 {
                            assert(t[i] == s[i]);
                        }
                    }
                    assert forall|i: int|
                        0 <= i < t.len() - 1 implies (#[trigger] t[i]).addr + t[i].size <= t[i
                        + 1].addr by {
                        if i < n - 2 {
                            assert(t[i] == s[i] && t[i + 1] == s[i + 1]);
                        }
                    }
                    assert forall|i: int|
                        0 <= i < t.len() - 1 && adjacent(t[i], #[trigger] t[i + 1]) implies t[i].allocated
                        || t[i + 1].allocated by {
                        if i < n - 2 {
                            assert(t[i] == s[i] && t[i + 1] == s[i + 1]);
                        } else {
                            assert(adjacent(s[i], s[i + 1]) && !s[i + 1].allocated);
                        }
                    }
                }
                return true;
            }
        }
        self.chunks.push(Header { addr: start, size: len, allocated: false });
        proof {
            let t = self@;
            let s = old(self)@;
            assert forall|i: int| 0 <= i < t.len() implies chunk_wf(#[trigger] t[i]) by {
                if i < n {
                    assert(t[i] == s[i]);
                }
            }
            assert forall|i: int|
                0 <= i < t.len() - 1 implies (#[trigger] t[i]).addr + t[i].size <= t[i + 1].addr by {
                if i < n - 1 {
                    assert(t[i] == s[i] && t[i + 1] == s[i + 1]);
                } else {
                    assert(t[i] == s[i]);
                }
            }
            assert forall|i: int|
                0 <= i < t.len() - 1 && adjacent(t[i], #[trigger] t[i + 1]) implies t[i].allocated
                || t[i + 1].allocated by {
                if i < n - 1 {
                    assert(t[i] == s[i] && t[i + 1] == s[i + 1]);
                }
            }
        }
        true
    }

    /// Frees the allocated chunk at position `j` and eagerly coalesces it
    /// with the free neighbours it touches, first above, then below.
    #[verifier::rlimit(100)]
    fn merge_at(&mut self, j: usize)
        requires
            old(self).wf(),
            j < old(self)@.len(),
            old(self)@[j as int].allocated,
        ensures
            final(self).wf(),
            final(self)@ == spec_free_at(old(self)@, j as int),
    {
        let ghost s = self@;
        let ghost jj = j as int;
        proof {
            lemma_free_chain(s, jj);
        }
        let n = self.chunks.len();
        let cur = self.chunks[j];
        self.chunks[j] = Header { addr: cur.addr, size: cur.size, allocated: false };
        let mut fwd = false;
        if j + 1 < n {
            let me = self.chunks[j];
            let nxt = self.chunks[j + 1];
            if !nxt.is_allocated() && me.addr + me.size == nxt.addr {
                proof {
                    assert(chunk_wf(s[jj]) && chunk_wf(s[jj + 1]));
                }
                self.chunks[j] = Header {
                    addr: me.addr,
                    size: me.size + nxt.size,
                    allocated: false,
                };
                self.chunks.remove(j + 1);
                fwd = true;
            }
        }
        let ghost v = self@;
        let ghost mf = Header {
            addr: s[jj].addr,
            size: (s[jj].size + s[jj + 1].size) as usize,
            allocated: false,
        };
        proof {
            assert(fwd == merges_forward(s, jj));
            if fwd {
                let w = s.update(jj, mf);
                w.remove_ensures(jj + 1);
                assert(v == w.remove(jj + 1));
                assert forall|k: int| 0 <= k < v.len() implies #[trigger] v[k] == (
                if k < jj {
                    s[k]
                } else if k == jj {
                    mf
                } else {
                    s[k + 1]
                }) by {
                    if k < jj + 1 {
                        assert(v[k] == w[k]);
                    } else {
                        assert(v[k] == w[k + 1]);
                    }
                }
                assert(chunk_wf(s[jj + 1]));
                assert(v[jj].addr + v[jj].size == s[jj + 1].addr + s[jj + 1].size);
            } else {
                assert(v == s.update(jj, free_chunk(s[jj])));
                assert(chunk_wf(s[jj]));
            }
            assert(jj < v.len());
        }
        let mut bwd = false;
        if j > 0 {
            let prv = self.chunks[j - 1];
            let me = self.chunks[j];
            if !prv.is_allocated() && prv.addr + prv.size == me.addr {
                proof {
                    assert(prv == s[jj - 1]);
                    assert(me == v[jj]);
                    assert(me.addr + me.size <= usize::MAX);
                }
                self.chunks[j - 1] = Header {
                    addr: prv.addr,
                    size: prv.size + me.size,
                    allocated: false,
                };
                self.chunks.remove(j);
                bwd = true;
            }
        }
        proof {
            assert(bwd == merges_backward(s, jj));
            let t = spec_free_at(s, jj);
            if bwd {
                let mb = Header {
                    addr: s[jj - 1].addr,
                    size: (s[jj - 1].size + v[jj].size) as usize,
                    allocated: false,
                };
                let w2 = v.update(jj - 1, mb);
                w2.remove_ensures(jj);
                assert(self@ == w2.remove(jj));
                assert forall|k: int| 0 <= k < self@.len() implies #[trigger] self@[k] == (
                if k < jj - 1 {
                    v[k]
                } else if k == jj - 1 {
                    mb
                } else {
                    v[k + 1]
                }) by {
                    if k < jj {
                        assert(self@[k] == w2[k]);
                    } else {
                        assert(self@[k] == w2[k + 1]);
                    }
                }
                assert(self@ =~= t);
            } else {
                assert(self@ == v);
                assert(self@ =~= t);
            }
        }
    }

    /// Hands a previously allocated region back to the arena.
    ///
    /// The owning chunk is recovered from the payload address; the `size`
    /// and `align` of the original request are part of the interface but do
    /// not steer the merge.  Fails with `InvalidFree` when no chunk header
    /// sits `HEADER_SIZE` below `addr`, and with `DoubleFree` when that
    /// chunk is already free; both reports mean the caller broke the
    /// deallocation contract and must stop rather than carry on with a
    /// possibly corrupt chain.  On success the chunk is freed and coalesced,
    /// so no two touching chunks are left free.
    #[verifier::loop_isolation(false)]
    pub fn deallocate(&mut self, addr: usize, size: usize, align: usize) -> (r: Result<
        (),
        AllocError,
    >)
        requires
            old(self).wf(),
        ensures
            final(self).wf(),
            no_adjacent_free(final(self)@),
            (r is Err ==> *final(self) == *old(self)),
            (addr < HEADER_SIZE ==> r == Err::<(), AllocError>(AllocError::InvalidFree)),
            (addr >= HEADER_SIZE ==> match find_chunk(old(self)@, addr as int - HEADER_SIZE) {
                Some(j) => {
                    if old(self)@[j].allocated {
                        &&& r == Ok::<(), AllocError>(())
                        &&& final(self)@ == spec_free_at(old(self)@, j)
                    } else {
                        r == Err::<(), AllocError>(AllocError::DoubleFree)
                    }
                },
                None => r == Err::<(), AllocError>(AllocError::InvalidFree),
            }),
    {
        if addr < HEADER_SIZE {
            return Err(AllocError::InvalidFree);
        }
        let haddr = addr - HEADER_SIZE;
        let n = self.chunks.len();
        let mut j: usize = 0;
        while j < n
            invariant
                *self == *old(self),
                n == self@.len(),
                0 <= j <= n,
                forall|k: int| 0 <= k < j ==> (#[trigger] self@[k]).addr != haddr,
            decreases n - j,
        {
            if self.chunks[j].addr == haddr {
                proof {
                    lemma_find_chunk_first(old(self)@, haddr as int, j as int);
                }
                if !self.chunks[j].is_allocated() {
                    return Err(AllocError::DoubleFree);
                }
                self.merge_at(j);
                return Ok(());
            }
            j = j + 1;
        }
        proof {
            lemma_find_chunk_none(old(self)@, haddr as int);
        }
        Err(AllocError::InvalidFree)
    }

    /// Replaces the chunk at position `i` — already shrunk in place by the
    /// split — by linking in the allocated chunk and, when present, the
    /// padding chunk right after it.
    #[verifier::rlimit(60)]
    fn splice(&mut self, i: usize, low: Header, alloc: Header, pad: Option<Header>) -> (ps: Ghost<
        Seq<Header>,
    >)
        requires
            i < old(self)@.len(),
        ensures
            (pad is Some ==> ps@ == seq![low, alloc, pad.unwrap()]),
            (pad is None ==> ps@ == seq![low, alloc]),
            final(self)@ == old(self)@.take(i as int) + ps@ + old(self)@.skip(i as int + 1),
    {
        let ghost s = self@;
        let ghost ii = i as int;
        let n = self.chunks.len();
        assert(i < n);
        let ghost ps = if pad is Some {
            seq![low, alloc, pad.unwrap()]
        } else {
            seq![low, alloc]
        };
        self.chunks[i] = low;
        match pad {
            Some(p) => {
                self.chunks.insert(i + 1, p);
            },
            None => {},
        }
        self.chunks.insert(i + 1, alloc);
        proof {
            let m = ps.len() as int;
            let t = s.take(ii) + ps + s.skip(ii + 1);
            let u = s.update(ii, low);
            let w = if m == 3 {
                u.insert(ii + 1, ps[2])
            } else {
                u
            };
            if m == 3 {
                u.insert_ensures(ii + 1, ps[2]);
            }
            w.insert_ensures(ii + 1, alloc);
            assert(self@ == w.insert(ii + 1, alloc));
            assert(self@.len() == t.len());
            assert forall|j: int| 0 <= j < t.len() implies #[trigger] self@[j] == t[j] by {
                if j < ii {
                    assert(self@[j] == w[j] && w[j] == u[j]);
                    assert(t[j] == s[j]);
                } else if j == ii {
                    assert(self@[j] == w[j] && w[j] == u[j]);
                    assert(t[j] == ps[0]);
                } else if j == ii + 1 {
                    assert(self@[j] == alloc && t[j] == ps[1]);
                } else if j == ii + 2 && m == 3 {
                    assert(self@[j] == w[j - 1] && w[j - 1] == ps[2]);
                    assert(t[j] == ps[2]);
                } else {
                    assert(t[j] == s[j - m + 1]);
                    if m == 3 {
                        assert(self@[j] == w[j - 1]);
                        assert(w[j - 1] == u[j - 2]);
                        assert(u[j - 2] == s[j - 2]);
                    } else {
                        assert(self@[j] == w[j - 1]);
                        assert(w[j - 1] == s[j - 1]);
                    }
                }
            }
            assert(self@ =~= t);
        }
        Ghost(ps)
    }

    /// Allocates `size` bytes at alignment `align`, walking the chain in
    /// address order and splitting the first free chunk that can host the
    /// request (first-fit).  Returns the payload address; the payload is
    /// aligned as requested and lies inside the chunk that was split.  Fails
    /// with `OutOfRange` when the size cannot be rounded to a representable
    /// power of two, and with `OutOfMemory` when no chunk fits.
    #[verifier::loop_isolation(false)]
    #[verifier::rlimit(60)]
    pub fn allocate(&mut self, size: usize, align: usize) -> (r: Result<usize, AllocError>)
        requires
            old(self).wf(),
            is_pow2(align as int),
        ensures
            final(self).wf(),
            (!size_in_range(size as int) ==> r == Err::<usize, AllocError>(AllocError::OutOfRange)
                && *final(self) == *old(self)),
            (size_in_range(size as int) ==> ({
                let ns = norm_size(size as int);
                let na = norm_align(align as int);
                match find_fit(old(self)@, ns, na) {
                    Some(i) => {
                        let a = alloc_addr_for(old(self)@[i], ns, na);
                        &&& r == Ok::<usize, AllocError>(a as usize)
                        &&& final(self)@ == old(self)@.take(i) + split_pieces(
                            old(self)@[i],
                            ns,
                            na,
                        ) + old(self)@.skip(i + 1)
                        &&& a % na == 0
                        &&& a % (align as int) == 0
                        &&& old(self)@[i].addr < a
                        &&& a + ns <= old(self)@[i].addr + old(self)@[i].size
                    },
                    None => r == Err::<usize, AllocError>(AllocError::OutOfMemory) && *final(self)
                        == *old(self),
                }
            })),
    {
        match round_up_to_nearest_pow2(size) {
            Ok(_) => {},
            Err(e) => {
                return Err(e);
            },
        }
        let ghost ns = norm_size(size as int);
        let ghost na = norm_align(align as int);
        let mut i: usize = 0;
        while i < self.chunks.len()
            invariant
                *self == *old(self),
                0 <= i <= self@.len(),
                forall|j: int| 0 <= j < i ==> !fits(#[trigger] old(self)@[j], ns, na),
            decreases self@.len() - i,
        {
            let mut c = self.chunks[i];
            let res = c.provide(size, align);
            match res {
                Some(sp) => {
                    proof {
                        lemma_find_fit_first(old(self)@, ns, na, i as int);
                        lemma_split_properties(old(self)@[i as int], size as int, align as int);
                        lemma_split_chain(old(self)@, i as int, size as int, align as int);
                    }
                    let ps = self.splice(i, c, sp.alloc_chunk, sp.pad_chunk);
                    proof {
                        assert(ps@ =~= split_pieces(old(self)@[i as int], ns, na));
                    }
                    return Ok(sp.alloc_addr);
                },
                None => {},
            }
            i = i + 1;
        }
        proof {
            lemma_find_fit_none(old(self)@, ns, na);
        }
        Err(AllocError::OutOfMemory)
    }

    /// Allocates like [`Arena::allocate`], but when the walk exhausts the
    /// chain and one more usable range is on offer from the memory map,
    /// ingests the range and retries the walk exactly once.  An acceptable
    /// range stays in the chain even when the retry also fails.
    pub fn allocate_with_grow(
        &mut self,
        size: usize,
        align: usize,
        extra: Option<(usize, usize)>,
    ) -> (r: Result<usize, AllocError>)
        requires
            old(self).wf(),
            is_pow2(align as int),
        ensures
            final(self).wf(),
            (!size_in_range(size as int) ==> r == Err::<usize, AllocError>(AllocError::OutOfRange)
                && *final(self) == *old(self)),
            (size_in_range(size as int) ==> ({
                let ns = norm_size(size as int);
                let na = norm_align(align as int);
                match find_fit(old(self)@, ns, na) {
                    Some(i) => r == Ok::<usize, AllocError>(
                        alloc_addr_for(old(self)@[i], ns, na) as usize,
                    ) && final(self)@ == old(self)@.take(i) + split_pieces(old(self)@[i], ns, na)
                        + old(self)@.skip(i + 1),
                    None => match extra {
                        Some((start, len)) => {
                            if can_ingest(old(self)@, start as int, len as int) {
                                let g = spec_ingest(old(self)@, start as int, len as int);
                                match find_fit(g, ns, na) {
                                    Some(i) => r == Ok::<usize, AllocError>(
                                        alloc_addr_for(g[i], ns, na) as usize,
                                    ) && final(self)@ == g.take(i) + split_pieces(g[i], ns, na)
                                        + g.skip(i + 1),
                                    None => r == Err::<usize, AllocError>(AllocError::OutOfMemory)
                                        && final(self)@ == g,
                                }
                            } else {
                                r == Err::<usize, AllocError>(AllocError::OutOfMemory)
                                    && *final(self) == *old(self)
                            }
                        },
                        None => r == Err::<usize, AllocError>(AllocError::OutOfMemory)
                            && *final(self) == *old(self),
                    },
                }
            })),
    {
        let first = self.allocate(size, align);
        match first {
            Ok(a) => Ok(a),
            Err(AllocError::OutOfMemory) => {
                match extra {
                    Some((start, len)) => {
                        if self.ingest_range(start, len) {
                            self.allocate(size, align)
                        } else {
                            Err(AllocError::OutOfMemory)
                        }
                    },
                    None => Err(AllocError::OutOfMemory),
                }
            },
            Err(e) => Err(e),
        }
    }
}

} // verus!
