//! The intrusive chunk header and the chunk-splitting engine.
//!
//! Every memory region, free or allocated, is described by a [`Header`]
//! record that physically sits immediately before the region's payload.  The
//! header occupies `HEADER_SIZE` bytes, so a chunk whose header lies at
//! `addr` spans `[addr, addr + size)` and hands `[addr + HEADER_SIZE,
//! addr + size)` to its user.  Splitting carves an allocated sub-chunk out of
//! the high end of a free chunk, so the free chunk's header stays put and
//! only its size shrinks.

use vstd::prelude::*;
use vstd::arithmetic::power2::is_pow2;
use vstd::arithmetic::div_mod::{
    lemma_fundamental_div_mod, lemma_fundamental_div_mod_converse_mod, lemma_mod_multiples_basic,
    lemma_mod_division_less_than_divisor, lemma_mod_sub_multiples_vanish, lemma_add_mod_noop,
    lemma_sub_mod_noop, lemma_small_mod, lemma_div_pos_is_pos,
};
use crate::pow2::{
    round_up_spec, round_up_to_nearest_pow2, lemma_round_up_spec_props, lemma_pow2_divides,
    MAX_POW2,
};

verus! {

/// Byte size of a chunk header; a power of two so that
/// `max(requested_align, HEADER_SIZE)` is always a valid alignment.
pub const HEADER_SIZE: usize = 32;

/// One chunk of backing memory: the header's own address, the total byte
/// length of the chunk (header included), and whether the payload is in use.
///
/// The chain that ties chunks together is held by the arena as an
/// address-ordered sequence, so the header itself carries no link.
#[derive(Clone, Copy, Debug, PartialEq, Eq, Structural)]
pub struct Header {
    /// Address of the header itself; the chunk spans `[addr, addr + size)`.
    pub addr: usize,
    /// Total byte length of the chunk, its header included.
    pub size: usize,
    /// True while the payload belongs to a caller.
    pub allocated: bool,
}

/// What every chunk must satisfy: it can hold at least its own header, both
/// its address and size keep header granularity (so that every split and
/// merge again produces header-aligned chunks), and it fits in the address
/// space.
pub open spec fn chunk_wf(c: Header) -> bool {
    &&& c.size >= HEADER_SIZE
    &&& c.addr as int % (HEADER_SIZE as int) == 0
    &&& c.size as int % (HEADER_SIZE as int) == 0
    &&& c.addr + c.size <= usize::MAX
}

/// Requested alignment normalized so a header can always be placed:
/// never below `HEADER_SIZE`.
pub open spec fn norm_align(align: int) -> int {
    if align < HEADER_SIZE {
        HEADER_SIZE as int
    } else {
        align
    }
}

/// Requested size rounded up to a power of two and floored at `HEADER_SIZE`.
pub open spec fn norm_size(size: int) -> int {
    if round_up_spec(size) < HEADER_SIZE {
        HEADER_SIZE as int
    } else {
        round_up_spec(size)
    }
}

/// The request sizes that can be rounded at all: zero and anything beyond
/// the largest representable power of two are out of range.
pub open spec fn size_in_range(size: int) -> bool {
    1 <= size <= MAX_POW2
}

/// Where the payload of a request `(nsize, nalign)` lands inside the free
/// chunk `c`: the highest `nalign`-aligned address that leaves `nsize` bytes
/// before the chunk's end.
pub open spec fn alloc_addr_for(c: Header, nsize: int, nalign: int) -> int {
    ((c.addr + c.size - nsize) / nalign) * nalign
}

/// The chunks that replace the free chunk `c` after a successful split, in
/// address order: the shrunk original, the allocated chunk, and — when slack
/// remains above the payload — a free padding chunk.
pub open spec fn split_pieces(c: Header, nsize: int, nalign: int) -> Seq<Header> {
    let a = alloc_addr_for(c, nsize, nalign);
    let h = a - HEADER_SIZE;
    let top = c.addr + c.size - (a + nsize);
    let low = Header { addr: c.addr, size: (h - c.addr) as usize, allocated: false };
    if top >= HEADER_SIZE {
        seq![
            low,
            Header { addr: h as usize, size: (HEADER_SIZE + nsize) as usize, allocated: true },
            Header { addr: (a + nsize) as usize, size: top as usize, allocated: false },
        ]
    } else {
        seq![
            low,
            Header { addr: h as usize, size: (HEADER_SIZE + nsize + top) as usize, allocated: true },
        ]
    }
}

/// Divisibility is transitive: if `c` divides `b` and `b` divides `a`,
/// then `c` divides `a`.
pub proof fn lemma_mod_zero_transitive(a: int, b: int, c: int)
    requires
        a % b == 0,
        b % c == 0,
        a >= 0,
        b >= 1,
        c >= 1,
    ensures
        a % c == 0,
{
    let k = a / b;
    let m = b / c;
    lemma_fundamental_div_mod(a, b);
    lemma_fundamental_div_mod(b, c);
    lemma_div_pos_is_pos(a, b);
    lemma_div_pos_is_pos(b, c);
    assert(a == (c * m) * k);
    assert((c * m) * k == (m * k) * c) by (nonlinear_arith);
    assert(m * k >= 0) by (nonlinear_arith)
        requires
            m >= 0,
            k >= 0,
    ;
    lemma_mod_multiples_basic(m * k, c);
}

/// `HEADER_SIZE` is a power of two.
pub proof fn lemma_header_size_pow2()
    ensures
        is_pow2(HEADER_SIZE as int),
{
    reveal_with_fuel(is_pow2, 7);
}

/// Everything the splitting algorithm guarantees for a request the chunk can
/// host: where the payload lands, that the placement is aligned and inside
/// the chunk, and that the replacement chunks are well formed, mark exactly
/// the requested region as allocated, and partition the original chunk.
pub proof fn lemma_split_properties(c: Header, size: int, align: int)
    requires
        chunk_wf(c),
        is_pow2(align),
        size_in_range(size),
        !c.allocated,
        c.spec_can_provide(norm_size(size), norm_align(align)),
    ensures
        ({
            let ns = norm_size(size);
            let na = norm_align(align);
            let a = alloc_addr_for(c, ns, na);
            let ps = split_pieces(c, ns, na);
            &&& HEADER_SIZE <= ns && is_pow2(ns) && ns % (HEADER_SIZE as int) == 0 && size <= ns
            &&& HEADER_SIZE <= na && is_pow2(na) && na % (HEADER_SIZE as int) == 0
            &&& a % na == 0 && a % align == 0 && a % (HEADER_SIZE as int) == 0
            &&& c.addr + 2 * HEADER_SIZE < a
            &&& a + ns <= c.addr + c.size
            &&& 2 <= ps.len() <= 3
            &&& (forall|i: int| 0 <= i < ps.len() ==> chunk_wf(#[trigger] ps[i]))
            &&& (forall|i: int|
                0 <= i < ps.len() - 1 ==> (#[trigger] ps[i]).addr + ps[i].size == ps[i + 1].addr)
            &&& ps[0].addr == c.addr
            &&& ps[ps.len() - 1].addr + ps[ps.len() - 1].size == c.addr + c.size
            &&& ps[0].allocated == false
            &&& ps[1].allocated == true
            &&& (ps.len() == 3 ==> ps[2].allocated == false)
            &&& ps[1].addr + HEADER_SIZE == a
            &&& a + ns <= ps[1].addr + ps[1].size
        }),
{
    let ns = norm_size(size);
    let na = norm_align(align);
    let end = c.addr + c.size;
    let x = end - ns;
    let a = alloc_addr_for(c, ns, na);
    let h = a - HEADER_SIZE;
    let top = end - (a + ns);

    lemma_header_size_pow2();
    lemma_round_up_spec_props(size);
    let rs = round_up_spec(size);

    // the normalized size and alignment are header-granular powers of two
    if rs < HEADER_SIZE {
        assert(ns == HEADER_SIZE as int);
    } else {
        lemma_pow2_divides(HEADER_SIZE as int, ns);
    }
    assert(is_pow2(ns) && ns % (HEADER_SIZE as int) == 0 && HEADER_SIZE <= ns && size <= ns);
    if align < HEADER_SIZE {
        assert(na == HEADER_SIZE as int);
    } else {
        lemma_pow2_divides(HEADER_SIZE as int, na);
    }
    assert(is_pow2(na) && na % (HEADER_SIZE as int) == 0 && HEADER_SIZE <= na);

    // placement: a is the largest multiple of na with a <= x
    lemma_fundamental_div_mod(x, na);
    lemma_mod_division_less_than_divisor(x, na);
    assert((x / na) * na == na * (x / na)) by (nonlinear_arith);
    assert(a == x - x % na);
    assert(x - na < a <= x);
    lemma_mod_multiples_basic(x / na, na);
    assert(a % na == 0);
    lemma_div_pos_is_pos(x, na);
    assert(a >= 0) by (nonlinear_arith)
        requires
            a == (x / na) * na,
            x / na >= 0,
            na > 0,
    ;
    lemma_mod_zero_transitive(a, na, HEADER_SIZE as int);
    assert(a % (HEADER_SIZE as int) == 0);
    if align < HEADER_SIZE {
        assert(align >= 1) by {
            reveal(is_pow2);
        }
        lemma_pow2_divides(align, HEADER_SIZE as int);
        lemma_mod_zero_transitive(a, HEADER_SIZE as int, align);
    }
    assert(a % align == 0);

    // the chunk is large enough: the payload sits strictly above the header
    // region plus one more header worth of space
    assert(c.size >= ns + 2 * HEADER_SIZE + na);
    assert(x >= c.addr + 2 * HEADER_SIZE + na);
    assert(c.addr + 2 * HEADER_SIZE < a);
    assert(a + ns <= end);

    // header granularity of all derived offsets
    lemma_mod_sub_multiples_vanish(a, HEADER_SIZE as int);
    assert(h % (HEADER_SIZE as int) == 0);
    lemma_sub_mod_noop(h, c.addr as int, HEADER_SIZE as int);
    assert((h - c.addr) % (HEADER_SIZE as int) == 0);
    lemma_add_mod_noop(c.addr as int, c.size as int, HEADER_SIZE as int);
    assert(end % (HEADER_SIZE as int) == 0);
    lemma_add_mod_noop(a, ns, HEADER_SIZE as int);
    assert((a + ns) % (HEADER_SIZE as int) == 0);
    lemma_sub_mod_noop(end, a + ns, HEADER_SIZE as int);
    assert(top % (HEADER_SIZE as int) == 0);
    assert(top >= 0);

    if top < HEADER_SIZE {
        lemma_small_mod(top as nat, HEADER_SIZE as nat);
        assert(top == 0);
    }

    // well-formedness and adjacency of the replacement chunks
    let ps = split_pieces(c, ns, na);
    assert(h - c.addr > 2 * HEADER_SIZE - HEADER_SIZE);
    assert(chunk_wf(ps[0]));
    assert(chunk_wf(ps[1]));
    if top >= HEADER_SIZE {
        assert(chunk_wf(ps[2]));
    }
}

/// The outcome of a successful split: the address handed to the caller, the
/// allocated chunk whose header precedes that address, and the free padding
/// chunk left above the payload when the aligned placement did not reach the
/// chunk's end.  The shrunk original chunk stays behind in `self`.
pub struct Split {
    /// Address of the allocated payload, `HEADER_SIZE` past the new header.
    pub alloc_addr: usize,
    /// The newly allocated chunk.
    pub alloc_chunk: Header,
    /// The free chunk carved out above the payload, if any slack remained.
    pub pad_chunk: Option<Header>,
}

impl Header {
    /// Mathematical form of [`Header::can_provide`].
    pub open spec fn spec_can_provide(self, size: int, align: int) -> bool {
        self.size >= size + 2 * HEADER_SIZE + align
    }

    /// One past the last address of the chunk.
    pub open spec fn spec_end_addr(self) -> int {
        self.addr + self.size
    }

    /// Whether this chunk can host a request of `size` bytes at alignment
    /// `align`.  The check reserves two extra headers — one for the
    /// allocated chunk, one for a possible padding chunk — plus the worst
    /// alignment slack; it is deliberately conservative.
    pub fn can_provide(&self, size: usize, align: usize) -> (r: bool)
        ensures
            r == self.spec_can_provide(size as int, align as int),
    {
        if size > usize::MAX - 2 * HEADER_SIZE {
            false
        } else {
            let need = size + 2 * HEADER_SIZE;
            if align > usize::MAX - need {
                false
            } else {
                self.size >= need + align
            }
        }
    }

    /// Whether the payload currently belongs to a caller.
    pub fn is_allocated(&self) -> (r: bool)
        ensures
            r == self.allocated,
    {
        self.allocated
    }

    /// One past the last address of the chunk.
    pub fn end_addr(&self) -> (r: usize)
        requires
            self.addr + self.size <= usize::MAX,
        ensures
            r == self.spec_end_addr(),
    {
        self.addr + self.size
    }

    /// Carves a request of `size` bytes at alignment `align` out of this
    /// free chunk, or reports that it cannot.
    ///
    /// On success the payload is placed at the highest aligned address that
    /// fits, this chunk shrinks to the space below the new header, and the
    /// allocated chunk (plus a padding chunk, when slack remains above the
    /// payload) is returned for the arena to link in right after this one.
    pub fn provide(&mut self, size: usize, align: usize) -> (r: Option<Split>)
        requires
            chunk_wf(*old(self)),
            is_pow2(align as int),
        ensures
            chunk_wf(*final(self)),
            (r is Some <==> (size_in_range(size as int) && !old(self).allocated
                && old(self).spec_can_provide(
                norm_size(size as int),
                norm_align(align as int),
            ))),
            (r is None ==> *final(self) == *old(self)),
            (r matches Some(s) ==> ({
                let ns = norm_size(size as int);
                let na = norm_align(align as int);
                let ps = split_pieces(*old(self), ns, na);
                &&& s.alloc_addr == alloc_addr_for(*old(self), ns, na)
                &&& *final(self) == ps[0]
                &&& s.alloc_chunk == ps[1]
                &&& (s.pad_chunk matches Some(p) ==> ps.len() == 3 && p == ps[2])
                &&& (s.pad_chunk is None ==> ps.len() == 2)
            })),
    {
        let rsize = match round_up_to_nearest_pow2(size) {
            Ok(s) => s,
            Err(_) => {
                return None;
            },
        };
        let nsize = if rsize < HEADER_SIZE {
            HEADER_SIZE
        } else {
            rsize
        };
        let nalign = if align < HEADER_SIZE {
            HEADER_SIZE
        } else {
            align
        };
        if self.is_allocated() || !self.can_provide(nsize, nalign) {
            return None;
        }
        proof {
            lemma_split_properties(*self, size as int, align as int);
        }
        let end = self.end_addr();
        let alloc_addr = ((end - nsize) / nalign) * nalign;
        let header_addr = alloc_addr - HEADER_SIZE;
        let top = end - (alloc_addr + nsize);
        self.size = header_addr - self.addr;
        if top >= HEADER_SIZE {
            Some(
                Split {
                    alloc_addr,
                    alloc_chunk: Header {
                        addr: header_addr,
                        size: HEADER_SIZE + nsize,
                        allocated: true,
                    },
                    pad_chunk: Some(
                        Header { addr: alloc_addr + nsize, size: top, allocated: false },
                    ),
                },
            )
        } else {
            Some(
                Split {
                    alloc_addr,
                    alloc_chunk: Header {
                        addr: header_addr,
                        size: HEADER_SIZE + nsize + top,
                        allocated: true,
                    },
                    pad_chunk: None,
                },
            )
        }
    }
}

} // verus!
