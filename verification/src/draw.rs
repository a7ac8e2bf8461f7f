use vstd::prelude::*;
use vstd::string::*;

use crate::error::{ClientError, ClientErrorView};

verus! {

/// A surface already drawn into the shared pool: the output it shows (by its
/// protocol id), and where its pixels lie in the pool.
pub struct SurfaceSlot {
    pub output: Option<u32>,
    pub offset: usize,
    pub len: usize,
}

/// Where a picture goes in the shared pool.
#[derive(Debug, PartialEq, Eq, Structural)]
pub enum DrawPlan {
    /// Redraw the surface at index `surface` in place, at its own offset: the
    /// compositor may still read the buffer, so no other bytes are touched.
    Reuse { surface: usize, offset: usize },
    /// Create a new surface whose pixels start at `offset`; the pool's free
    /// space then starts at `next_offset`.
    Create { offset: usize, next_offset: usize },
}

/// Slot `i` shows `output`.
pub open spec fn shows(slots: Seq<SurfaceSlot>, i: int, output: Option<u32>) -> bool {
    slots[i].output is Some && slots[i].output == output
}

/// The index of the first slot from index `i` on that shows `output`, if any.
pub open spec fn first_slot_from(slots: Seq<SurfaceSlot>, output: Option<u32>, i: int) -> Option<int>
    decreases slots.len() - i,
{
    if i < 0 || i >= slots.len() {
        None
    } else if shows(slots, i, output) {
        Some(i)
    } else {
        first_slot_from(slots, output, i + 1)
    }
}

/// The index of the first slot that shows `output`, if any.
pub open spec fn first_slot(slots: Seq<SurfaceSlot>, output: Option<u32>) -> Option<int> {
    first_slot_from(slots, output, 0)
}

proof fn lemma_first_slot_from(slots: Seq<SurfaceSlot>, output: Option<u32>, k: int)
    requires
        0 <= k <= slots.len(),
        forall|j: int| 0 <= j < k ==> !shows(slots, j, output),
    ensures
        match first_slot_from(slots, output, k) {
            Some(i) => 0 <= i < slots.len() && shows(slots, i, output) && forall|j: int|
                0 <= j < i ==> !shows(slots, j, output),
            None => forall|j: int| 0 <= j < slots.len() ==> !shows(slots, j, output),
        },
    decreases slots.len() - k,
{
    if k < slots.len() && !shows(slots, k, output) {
        lemma_first_slot_from(slots, output, k + 1);
    }
}

/// [`first_slot`] is the first index of a slot that shows `output`, and there
/// is none exactly when no slot shows it.
pub proof fn lemma_first_slot(slots: Seq<SurfaceSlot>, output: Option<u32>)
    ensures
        match first_slot(slots, output) {
            Some(i) => 0 <= i < slots.len() && shows(slots, i, output) && forall|j: int|
                0 <= j < i ==> !shows(slots, j, output),
            None => forall|j: int| 0 <= j < slots.len() ==> !shows(slots, j, output),
        },
{
    lemma_first_slot_from(slots, output, 0);
}

/// `a + b`, or `usize::MAX` where the sum does not fit.
pub open spec fn sat_add_usize(a: usize, b: usize) -> usize {
    if a + b <= usize::MAX {
        (a + b) as usize
    } else {
        usize::MAX
    }
}

/// Where a picture of `buf_len` bytes for `output` goes, in a pool of
/// `pool_size` bytes whose free space starts at `next_offset`, with the
/// surfaces `slots` already drawn: a picture larger than the pool is refused;
/// one for an output that a surface already shows reuses that surface (the
/// first such); any other gets a new surface at the start of the free space,
/// which then moves on by the picture's length.
pub open spec fn draw_plan(
    buf_len: usize,
    pool_size: usize,
    next_offset: usize,
    slots: Seq<SurfaceSlot>,
    output: Option<u32>,
) -> Result<DrawPlan, ClientErrorView> {
    if buf_len > pool_size {
        Err(ClientErrorView::Display("Pixel buffer is bigger than the display buffer"@))
    } else {
        match first_slot(slots, output) {
            Some(i) => Ok(DrawPlan::Reuse { surface: i as usize, offset: slots[i].offset }),
            None => Ok(
                DrawPlan::Create { offset: next_offset, next_offset: sat_add_usize(next_offset, buf_len) },
            ),
        }
    }
}

/// Plans where a picture goes in the shared pool (see [`draw_plan`]).
pub fn plan_draw(
    buf_len: usize,
    pool_size: usize,
    next_offset: usize,
    slots: &Vec<SurfaceSlot>,
    output: Option<u32>,
) -> (r: Result<DrawPlan, ClientError>)
    ensures
        match r {
            Ok(p) => draw_plan(buf_len, pool_size, next_offset, slots@, output) == Ok::<
                DrawPlan,
                ClientErrorView,
            >(p),
            Err(e) => draw_plan(buf_len, pool_size, next_offset, slots@, output) == Err::<
                DrawPlan,
                ClientErrorView,
            >(e@),
        },
{
    if buf_len > pool_size {
        return Err(
            ClientError::Display { msg: String::from_str("Pixel buffer is bigger than the display buffer") },
        );
    }
    if output.is_some() {
        let mut i: usize = 0;
        while i < slots.len()
            invariant
                output is Some,
                buf_len <= pool_size,
                i <= slots@.len(),
                forall|j: int| 0 <= j < i ==> !shows(slots@, j, output),
            decreases slots@.len() - i,
        {
            let same = match (slots[i].output, output) {
                (Some(a), Some(b)) => a == b,
                _ => false,
            };
            if same {
                proof {
                    lemma_first_slot(slots@, output);
                    let c = first_slot(slots@, output)->0;
                    assert(shows(slots@, i as int, output));
                    if first_slot(slots@, output) is None {
                        assert(!shows(slots@, i as int, output));
                    }
                    assert(c == i as int) by {
                        if c > i as int {
                            assert(!shows(slots@, i as int, output));
                        }
                    }
                }
                return Ok(DrawPlan::Reuse { surface: i, offset: slots[i].offset });
            }
            i = i + 1;
        }
    }
    proof {
        lemma_first_slot(slots@, output);
        if first_slot(slots@, output) is Some {
            let c = first_slot(slots@, output)->0;
            assert(shows(slots@, c, output));
        }
    }
    let next = if next_offset > usize::MAX - buf_len {
        usize::MAX
    } else {
        next_offset + buf_len
    };
    Ok(DrawPlan::Create { offset: next_offset, next_offset: next })
}

/// Every surface's pixels end before `next`, where the pool's free space starts.
pub open spec fn slots_below(slots: Seq<SurfaceSlot>, next: usize) -> bool {
    forall|i: int| 0 <= i < slots.len() ==> #[trigger] slots[i].offset + slots[i].len <= next
}

/// Drawing never touches another surface's pixels: a picture that is refused
/// is larger than the pool; a reused surface is redrawn at its own offset and
/// shows that output; a new surface starts where the free space starts, past
/// every surface drawn so far, and once it is added every surface again ends
/// before the free space (as long as that does not pass `usize::MAX`).
pub proof fn law_draw_keeps_other_surfaces(
    buf_len: usize,
    pool_size: usize,
    next_offset: usize,
    slots: Seq<SurfaceSlot>,
    output: Option<u32>,
)
    requires
        slots.len() <= usize::MAX,
        slots_below(slots, next_offset),
        next_offset + buf_len <= usize::MAX,
    ensures
        match draw_plan(buf_len, pool_size, next_offset, slots, output) {
            Err(_) => buf_len > pool_size,
            Ok(DrawPlan::Reuse { surface, offset }) => {
                &&& 0 <= surface < slots.len()
                &&& offset == slots[surface as int].offset
                &&& output is Some && slots[surface as int].output == output
            },
            Ok(DrawPlan::Create { offset, next_offset: next }) => {
                &&& offset == next_offset
                &&& next == offset + buf_len
                &&& forall|i: int| 0 <= i < slots.len() ==> #[trigger] slots[i].offset + slots[i].len <= offset
                &&& slots_below(slots.push(SurfaceSlot { output, offset, len: buf_len }), next)
            },
        },
{
    if buf_len <= pool_size {
        lemma_first_slot(slots, output);
        if first_slot(slots, output) is None {
            let t = slots.push(SurfaceSlot { output, offset: next_offset, len: buf_len });
            assert forall|i: int| 0 <= i < t.len() implies #[trigger] t[i].offset + t[i].len <= next_offset
                + buf_len by {
                if i < slots.len() {
                    assert(t[i] == slots[i]);
                }
            }
        }
    }
}

/// Whether `len` bytes from `offset` lie within a pool of `pool_size` bytes.
pub fn region_fits(offset: usize, len: usize, pool_size: usize) -> (r: bool)
    ensures
        r == (offset + len <= pool_size),
{
    offset <= pool_size && len <= pool_size - offset
}

} // verus!
