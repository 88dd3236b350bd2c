use vstd::prelude::*;

use core::sync::atomic::AtomicUsize;
use core::sync::atomic::Ordering;

verus! {

/// `align` is a power of two.
pub open spec fn is_power_of_two(align: usize) -> bool {
    exists|n: nat| n < usize::BITS && align == vstd::arithmetic::power2::pow2(n)
}

/// The address where an allocation of `size` bytes aligned to `align` starts
/// and ends when the free memory begins at `current`, or `None` when that
/// overflows the address space.
pub open spec fn claim(current: usize, size: usize, align: usize) -> Option<(usize, usize)> {
    if current + (align - 1) > usize::MAX {
        None
    } else {
        let start = ((current + (align - 1)) as usize) & !((align - 1) as usize);
        if start + size > usize::MAX {
            None
        } else {
            Some((start, (start + size) as usize))
        }
    }
}

/// Rounding up to a power of two gives the first multiple of it at or after
/// the address.
pub proof fn lemma_align_up(current: usize, align: usize)
    requires
        is_power_of_two(align),
        current + (align - 1) <= usize::MAX,
    ensures
        ({
            let start = ((current + (align - 1)) as usize) & !((align - 1) as usize);
            &&& start % align == 0
            &&& current <= start
            &&& start < current + align
        }),
{
    let n = choose|n: nat| n < usize::BITS && align == vstd::arithmetic::power2::pow2(n);
    vstd::arithmetic::power2::lemma_pow2_pos(n);
    let t = (current + (align - 1)) as usize;
    let m = (align - 1) as usize;
    let s = t & !m;
    assert(s & m == 0 && s <= t && t - s == t & m) by (bit_vector)
        requires
            s == t & !m,
    ;
    assert(vstd::bits::low_bits_mask(n) as usize == m);
    vstd::bits::lemma_usize_low_bits_mask_is_mod(s, n);
    vstd::bits::lemma_usize_low_bits_mask_is_mod(t, n);
}

/// An allocation that succeeds starts at a multiple of a power-of-two
/// alignment, no earlier than the free memory and less than one alignment
/// after it, and ends `size` bytes later.
pub proof fn lemma_claim_aligned(current: usize, size: usize, align: usize)
    requires
        is_power_of_two(align),
        claim(current, size, align) is Some,
    ensures
        ({
            let (start, end) = claim(current, size, align).unwrap();
            &&& start % align == 0
            &&& current <= start < current + align
            &&& end == start + size
        }),
{
    lemma_align_up(current, align);
}

/// Two allocations in a row, the second starting where the first ended, do
/// not overlap: the second starts at or after the end of the first.
pub proof fn lemma_claims_disjoint(
    current: usize,
    size1: usize,
    align1: usize,
    size2: usize,
    align2: usize,
)
    requires
        is_power_of_two(align1),
        is_power_of_two(align2),
        claim(current, size1, align1) is Some,
        claim(claim(current, size1, align1).unwrap().1, size2, align2) is Some,
    ensures
        claim(current, size1, align1).unwrap().1 <= claim(
            claim(current, size1, align1).unwrap().1,
            size2,
            align2,
        ).unwrap().0,
{
    let first_end = claim(current, size1, align1).unwrap().1;
    lemma_align_up(first_end, align2);
}

/// Where the free memory starts and ends, and the allocation when it fits.
pub fn claim_region(current: usize, size: usize, align: usize) -> (r: Option<(usize, usize)>)
    requires
        align >= 1,
    ensures
        r == claim(current, size, align),
{
    let aligned = match current.checked_add(align - 1) {
        Some(value) => value & !(align - 1),
        None => return None,
    };
    match aligned.checked_add(size) {
        Some(end) => Some((aligned, end)),
        None => None,
    }
}

/// What one attempt at an allocation came to.
#[derive(Debug, Clone, Copy, PartialEq, Eq, Structural)]
pub enum AllocStep {
    /// The memory starting at this address is handed out.
    Granted(usize),
    /// The request is empty or its claim overflows the address space.
    Refused,
    /// The claim would end past the region's end, which was this address.
    Exhausted(usize),
    /// Another allocation moved the free memory; try again from this address.
    Retry(usize),
}

/// What to do with a request, given where the free memory starts and where
/// the region ends.
#[derive(Debug, Clone, Copy, PartialEq, Eq, Structural)]
pub enum Decision {
    /// The request is empty or its claim overflows the address space.
    Refuse,
    /// The claim would end past the region's end, which is this address.
    Exhausted(usize),
    /// Move the free memory from the claim's start to its end.
    Claim(usize, usize),
}

pub open spec fn decision(current: usize, size: usize, align: usize, limit: usize) -> Decision {
    if size == 0 {
        Decision::Refuse
    } else {
        match claim(current, size, align) {
            None => Decision::Refuse,
            Some((start, end)) => if end > limit {
                Decision::Exhausted(limit)
            } else {
                Decision::Claim(start, end)
            },
        }
    }
}

/// Decides a request of `size` bytes aligned to `align` when the free memory
/// starts at `current` and the region ends at `limit`.
pub fn decide(current: usize, size: usize, align: usize, limit: usize) -> (d: Decision)
    requires
        align >= 1,
    ensures
        d == decision(current, size, align, limit),
{
    if size == 0 {
        return Decision::Refuse;
    }
    match claim_region(current, size, align) {
        None => Decision::Refuse,
        Some((start, end)) => {
            if end > limit {
                Decision::Exhausted(limit)
            } else {
                Decision::Claim(start, end)
            }
        },
    }
}

/// The outcome of moving the free memory to a claim's end with a
/// compare-exchange: granted on success, a retry from the value found
/// otherwise.
pub open spec fn settled(start: usize, exchange: Result<usize, usize>) -> AllocStep {
    match exchange {
        Ok(_) => AllocStep::Granted(start),
        Err(found) => AllocStep::Retry(found),
    }
}

/// The outcome of a claim starting at `start`, given the compare-exchange's
/// result.
pub fn settle(start: usize, exchange: Result<usize, usize>) -> (r: AllocStep)
    ensures
        r == settled(start, exchange),
{
    match exchange {
        Ok(_) => AllocStep::Granted(start),
        Err(found) => AllocStep::Retry(found),
    }
}

/// One attempt at an allocation, given the region's end that was read and
/// the result of the compare-exchange on the free memory.
pub open spec fn attempt(
    current: usize,
    size: usize,
    align: usize,
    limit: usize,
    exchange: Result<usize, usize>,
) -> AllocStep {
    match decision(current, size, align, limit) {
        Decision::Refuse => AllocStep::Refused,
        Decision::Exhausted(l) => AllocStep::Exhausted(l),
        Decision::Claim(start, _) => settled(start, exchange),
    }
}

/// A granted block is the claim computed from the free memory's start, ends
/// no later than the region's end that was read, and, for a power-of-two
/// alignment, starts at a multiple of it within one alignment of the free
/// memory's start.
pub proof fn lemma_granted_within_region(
    current: usize,
    size: usize,
    align: usize,
    limit: usize,
    exchange: Result<usize, usize>,
)
    requires
        attempt(current, size, align, limit, exchange) is Granted,
    ensures
        ({
            let p = attempt(current, size, align, limit, exchange)->Granted_0;
            &&& size > 0
            &&& claim(current, size, align) == Some((p, (p + size) as usize))
            &&& p + size <= limit
            &&& is_power_of_two(align) ==> p % align == 0 && current <= p < current + align
        }),
{
    if is_power_of_two(align) {
        lemma_claim_aligned(current, size, align);
    }
}

/// A bump allocator over one region of memory, safe to share between
/// threads; memory is never given back.
pub struct Allocator {
    start: AtomicUsize,
    end: AtomicUsize,
    next: AtomicUsize,
}

impl Allocator {
    /// An allocator with an empty region.
    pub fn new() -> Self {
        Self { start: AtomicUsize::new(0), end: AtomicUsize::new(0), next: AtomicUsize::new(0) }
    }

    /// Hands the region `start..start + size` to the allocator.
    pub fn init(&self, start: usize, size: usize)
        requires
            start + size <= usize::MAX,
    {
        self.start.store(start, Ordering::SeqCst);
        self.end.store(start + size, Ordering::SeqCst);
        self.next.store(start, Ordering::SeqCst);
    }

    /// Where the free memory starts, as last published.
    pub fn next_free(&self) -> usize {
        self.next.load(Ordering::Relaxed)
    }

    /// One attempt to allocate `size` bytes aligned to `align`, assuming the
    /// free memory starts at `current`: the decision against the region's
    /// end that was read and, for a claim that fits, the outcome of moving
    /// the free memory from `current` to the claim's end.
    pub fn try_alloc(&self, current: usize, size: usize, align: usize) -> (r: AllocStep)
        requires
            align >= 1,
        ensures
            exists|limit: usize, exchange: Result<usize, usize>|
                r == attempt(current, size, align, limit, exchange),
            (r == AllocStep::Refused) <==> (size == 0 || claim(current, size, align) is None),
    {
        let ghost mut seen: Result<usize, usize> = Err(0);
        if size == 0 {
            assert(AllocStep::Refused == attempt(current, size, align, 0, seen));
            return AllocStep::Refused;
        }
        let limit = self.end.load(Ordering::Acquire);
        let r = match decide(current, size, align, limit) {
            Decision::Refuse => AllocStep::Refused,
            Decision::Exhausted(l) => AllocStep::Exhausted(l),
            Decision::Claim(start, end) => {
                let exchange = self.next.compare_exchange_weak(
                    current,
                    end,
                    Ordering::AcqRel,
                    Ordering::Relaxed,
                );
                proof {
                    seen = exchange;
                }
                settle(start, exchange)
            },
        };
        assert(r == attempt(current, size, align, limit, seen));
        r
    }

    /// Memory is never given back.
    pub fn dealloc(&self, _ptr: usize, _size: usize, _align: usize) {
    }
}

} // verus!
