//! Stacks of bytes: an allocated block and the top of the stack in it.
use vstd::prelude::*;
use crate::memory::{grow_zeroed, max_block_size, zeros};

verus! {

/// The largest capacity that a stack may be extended from, exclusive.
pub const STACK_EXTEND_LIMIT: usize = 1073741823;

/// A stack: `buffer` is the allocated block (its length is the capacity),
/// the first `top` bytes are on the stack.
pub struct yaml_stack_t {
    pub buffer: Vec<u8>,
    pub top: usize,
}

impl yaml_stack_t {
    /// The top lies within the block.
    pub open spec fn valid(&self) -> bool {
        self.top <= self.buffer@.len()
    }
}

/// Doubles the capacity of a stack, whatever its top; the new bytes are
/// zero. Returns 1 on success (a stack of capacity zero stays so), 0 where
/// the stack is not valid or its capacity is already `STACK_EXTEND_LIMIT`
/// or more; the stack is then unchanged.
pub fn yaml_stack_extend(stack: &mut yaml_stack_t) -> (r: i32)
    ensures
        r == 0 || r == 1,
        r == 1 <==> old(stack).valid() && old(stack).buffer@.len() < STACK_EXTEND_LIMIT,
        !old(stack).valid() ==> r == 0,
        old(stack).buffer@.len() >= STACK_EXTEND_LIMIT ==> r == 0,
        old(stack).valid() && old(stack).buffer@.len() == 0 ==> r == 1,
        r == 1 ==> old(stack).valid() && final(stack).buffer@ == old(stack).buffer@ + zeros(
            old(stack).buffer@.len(),
        ) && final(stack).top == old(stack).top,
        r == 0 ==> final(stack).buffer@ == old(stack).buffer@ && final(stack).top == old(
            stack).top,
{
    if stack.top > stack.buffer.len() {
        return 0;
    }
    let size = stack.buffer.len();
    if size >= STACK_EXTEND_LIMIT {
        return 0;
    }
    assert(size + size <= max_block_size());
    if grow_zeroed(&mut stack.buffer, size) {
        1
    } else {
        0
    }
}

} // verus!
