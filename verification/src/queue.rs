//! Queues of bytes: an allocated block, with the queued bytes between a head
//! and a tail in it.
use vstd::prelude::*;
use crate::memory::{grow_zeroed, max_block_size, move_bytes, zeros};

verus! {

/// A queue: `buffer` is the allocated block (its length is the capacity),
/// the bytes from `head` up to `tail` are queued.
pub struct yaml_queue_t {
    pub buffer: Vec<u8>,
    pub head: usize,
    pub tail: usize,
}

impl yaml_queue_t {
    /// The queued bytes lie within the block.
    pub open spec fn valid(&self) -> bool {
        self.head <= self.tail <= self.buffer@.len()
    }

    /// The queued bytes.
    pub open spec fn items(&self) -> Seq<u8> {
        self.buffer@.subrange(self.head as int, self.tail as int)
    }
}

/// Makes room at the tail of a queue. A queue that fills its whole block
/// has its capacity doubled (the new bytes are zero); then, where the tail
/// is at the end of the block, the queued bytes move to its start. Returns
/// 1 on success; 0 where the queue is not valid, or where it must grow and
/// the doubled capacity is more than a block can hold, and the queue is
/// then unchanged.
pub fn yaml_queue_extend(queue: &mut yaml_queue_t) -> (r: i32)
    ensures
        r == 0 || r == 1,
        old(queue).valid() && old(queue).head == 0 && old(queue).tail == old(queue).buffer@.len()
            ==> (r == 1 <==> 2 * old(queue).buffer@.len() <= max_block_size()),
        !old(queue).valid() ==> r == 0,
        old(queue).valid() && !(old(queue).head == 0 && old(queue).tail == old(queue).buffer@.len()
            && old(queue).buffer@.len() > 0) ==> r == 1,
        r == 0 ==> final(queue).buffer@ == old(queue).buffer@ && final(queue).head == old(queue).head
            && final(queue).tail == old(queue).tail,
        r == 1 ==> ({
            let o = *old(queue);
            let grow = o.head == 0 && o.tail == o.buffer@.len();
            let block = if grow {
                o.buffer@ + zeros(o.buffer@.len())
            } else {
                o.buffer@
            };
            let moved = o.tail == block.len();
            &&& o.valid()
            &&& final(queue).valid()
            &&& final(queue).items() == o.items()
            &&& final(queue).buffer@.len() == block.len()
            &&& if moved {
                &&& final(queue).head == 0
                &&& final(queue).tail == o.tail - o.head
                &&& forall|i: int|
                    0 <= i < block.len() ==> #[trigger] final(queue).buffer@[i] == if i < o.tail
                        - o.head {
                        block[o.head + i]
                    } else {
                        block[i]
                    }
            } else {
                &&& final(queue).head == o.head
                &&& final(queue).tail == o.tail
                &&& final(queue).buffer@ == block
            }
        }),
{
    if !(queue.head <= queue.tail && queue.tail <= queue.buffer.len()) {
        return 0;
    }
    let ghost o = *queue;
    if queue.head == 0 && queue.tail == queue.buffer.len() {
        let size = queue.buffer.len();
        if size > usize::MAX / 2 {
            return 0;
        }
        if !grow_zeroed(&mut queue.buffer, size) {
            return 0;
        }
    }
    let ghost block = queue.buffer@;
    if queue.tail == queue.buffer.len() {
        let head = queue.head;
        let n = queue.tail - head;
        if head != queue.tail {
            move_bytes(&mut queue.buffer, 0, head, n);
        }
        queue.tail = n;
        queue.head = 0;
        assert(queue.items() =~= o.items());
    } else {
        assert(queue.items() =~= o.items());
    }
    1
}

} // verus!
