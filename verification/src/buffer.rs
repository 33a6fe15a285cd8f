//! Growable byte strings: an allocated block and the number of its bytes in
//! use. A string grows by doubling its block; joining appends the bytes in
//! use of one string to another, growing it until the bytes fit with room
//! to spare.
use vstd::prelude::*;
use crate::memory::{grow_zeroed, max_block_size, zeros};

verus! {

/// A growable byte string: `buffer` is the allocated block (its length is
/// the capacity) and `pointer` the number of bytes in use.
pub struct yaml_string_t {
    pub buffer: Vec<u8>,
    pub pointer: usize,
}

impl yaml_string_t {
    /// The bytes in use lie within the block.
    pub open spec fn valid(&self) -> bool {
        self.pointer <= self.buffer@.len()
    }

    /// The bytes in use.
    pub open spec fn used(&self) -> Seq<u8> {
        self.buffer@.take(self.pointer as int)
    }
}

/// `len` doubled `k` times.
pub open spec fn doubled(len: nat, k: nat) -> nat
    decreases k,
{
    if k == 0 {
        len
    } else {
        2 * doubled(len, (k - 1) as nat)
    }
}

/// Doubling nothing gives nothing.
pub proof fn lemma_doubled_zero(k: nat)
    ensures
        doubled(0, k) == 0,
    decreases k,
{
    if k > 0 {
        lemma_doubled_zero((k - 1) as nat);
    }
}

/// Doubling more often gives no less, and each doubling twice as much.
pub proof fn lemma_doubled_grows(len: nat, k1: nat, k2: nat)
    requires
        k1 <= k2,
    ensures
        doubled(len, k1) <= doubled(len, k2),
        k1 < k2 ==> 2 * doubled(len, k1) <= doubled(len, k2),
        doubled(len, k2) >= len,
    decreases k2,
{
    if k2 > 0 {
        if k1 < k2 {
            lemma_doubled_grows(len, k1, (k2 - 1) as nat);
        } else {
            lemma_doubled_grows(len, (k1 - 1) as nat, (k2 - 1) as nat);
        }
    }
}

/// Doubles the capacity of a string; the new bytes are zero. Returns 1 on
/// success (a string of capacity zero stays so), 0 where the string is not
/// valid or where the doubled capacity is more than a block can hold; the
/// string is then unchanged.
pub fn yaml_string_extend(string: &mut yaml_string_t) -> (r: i32)
    ensures
        r == 0 || r == 1,
        r == 1 <==> old(string).valid() && 2 * old(string).buffer@.len() <= max_block_size(),
        !old(string).valid() ==> r == 0,
        old(string).valid() && old(string).buffer@.len() == 0 ==> r == 1,
        r == 1 ==> old(string).valid() && 2 * old(string).buffer@.len() <= usize::MAX,
        r == 1 ==> final(string).buffer@ == old(string).buffer@ + zeros(
            old(string).buffer@.len(),
        ) && final(string).pointer == old(string).pointer,
        r == 0 ==> final(string).buffer@ == old(string).buffer@ && final(string).pointer == old(
            string).pointer,
{
    if string.pointer > string.buffer.len() {
        return 0;
    }
    let size = string.buffer.len();
    if size > usize::MAX / 2 {
        return 0;
    }
    if grow_zeroed(&mut string.buffer, size) {
        1
    } else {
        0
    }
}

/// Whether two strings hold the same bytes and the same pointer.
pub open spec fn same_string(x: yaml_string_t, y: yaml_string_t) -> bool {
    x.buffer@ == y.buffer@ && x.pointer == y.pointer
}

/// `new` is `old` with `src` appended at its pointer, its capacity doubled
/// as few times as leaves room for `src` and one more byte (new bytes zero).
pub open spec fn joined(old: yaml_string_t, src: Seq<u8>, new: yaml_string_t) -> bool {
    let p = old.pointer as int;
    let n = src.len() as int;
    let len = new.buffer@.len();
    let full = old.buffer@ + zeros((len - old.buffer@.len()) as nat);
    &&& exists|k: nat| len == doubled(old.buffer@.len(), k)
    &&& len - p > n
    &&& len > old.buffer@.len() ==> len / 2 - p <= n
    &&& new.pointer == p + n
    &&& new.buffer@ == full.take(p) + src + full.skip(p + n)
}

/// `new` is `old` with its capacity doubled some times (new bytes zero) and
/// its pointer kept, still without room for `n` bytes and one more, and
/// unable to double further: empty, or twice its capacity is more than a
/// block can hold.
pub open spec fn join_stopped(old: yaml_string_t, n: int, new: yaml_string_t) -> bool {
    let len = new.buffer@.len();
    &&& exists|k: nat| len == doubled(old.buffer@.len(), k)
    &&& new.pointer == old.pointer
    &&& new.buffer@ == old.buffer@ + zeros((len - old.buffer@.len()) as nat)
    &&& len - old.pointer <= n
    &&& len == 0 || 2 * len > max_block_size()
}

/// Doubling the capacity `len` some times, each time to no more than a
/// block can hold, gives room for `n` bytes and one more past `p`.
pub open spec fn join_fits(len: nat, p: int, n: int) -> bool {
    exists|k: nat| doubled(len, k) <= max_block_size() && doubled(len, k) - p > n
}

/// What joining a source whose bytes in use are `src` onto the valid string
/// `old` ends in: with result `r`, `old` becomes `new`. An empty source
/// changes nothing; where `old` has room already, the bytes are appended
/// and nothing is allocated; a string of capacity zero cannot grow; else
/// the bytes are appended after doubling wherever doubling within what a
/// block can hold makes room, and the join stops at the last capacity it
/// can reach where it does not.
pub open spec fn join_outcome(old: yaml_string_t, src: Seq<u8>, r: i32, new: yaml_string_t) -> bool {
    if src.len() == 0 {
        r == 1 && same_string(new, old)
    } else if old.buffer@.len() - old.pointer > src.len() {
        r == 1 && joined(old, src, new)
    } else if old.buffer@.len() == 0 {
        r == 0 && same_string(new, old)
    } else if join_fits(old.buffer@.len(), old.pointer as int, src.len() as int) {
        r == 1 && joined(old, src, new)
    } else {
        r == 0 && join_stopped(old, src.len() as int, new)
    }
}

/// Appends the bytes in use of `b` to `a`, after doubling the capacity of
/// `a` as often as needed to leave room for one more byte. Returns 1 on
/// success, 0 on failure: `a` or `b` not valid (nothing changes), or a
/// doubling that failed (the doubled capacity is more than a block can
/// hold) or did not grow `a` (it has no capacity); `a` keeps the capacity
/// it had reached and its bytes in use then. Only the bytes in use of `b`
/// matter.
pub fn yaml_string_join(a: &mut yaml_string_t, b: &yaml_string_t) -> (r: i32)
    ensures
        r == 0 || r == 1,
        !old(a).valid() ==> r == 0 && *final(a) == *old(a),
        old(a).valid() && !b.valid() ==> r == 0 && *final(a) == *old(a),
        old(a).valid() && b.valid() ==> join_outcome(*old(a), b.used(), r, *final(a)),
{
    if a.pointer > a.buffer.len() {
        return 0;
    }
    if b.pointer == 0 {
        return 1;
    }
    if b.pointer > b.buffer.len() {
        assert(a.buffer@.len() == doubled(a.buffer@.len(), 0));
        assert(a.buffer@ =~= a.buffer@ + zeros(0));
        return 0;
    }
    let n = b.pointer;
    let ghost old_a = a.buffer@;
    let ghost mut k: nat = 0;
    assert(old_a + zeros(0) =~= old_a);
    assert(a.buffer@.len() == doubled(old_a.len(), 0));
    loop
        invariant
            old(a).valid(),
            a.pointer == old(a).pointer,
            a.pointer <= a.buffer@.len(),
            old_a == old(a).buffer@,
            a.buffer@.len() == doubled(old_a.len(), k),
            a.buffer@.len() >= old_a.len(),
            a.buffer@ == old_a + zeros((a.buffer@.len() - old_a.len()) as nat),
            a.buffer@.len() > old_a.len() ==> a.buffer@.len() / 2 - a.pointer <= n,
            n == b.pointer,
            0 < n <= b.buffer@.len(),
            old_a.len() - a.pointer > n ==> a.buffer@.len() == old_a.len(),
            k > 0 ==> a.buffer@.len() <= max_block_size(),
        ensures
            k > 0 ==> a.buffer@.len() <= max_block_size(),
            a.pointer == old(a).pointer,
            a.buffer.len() - a.pointer > n,
            a.buffer@.len() == doubled(old_a.len(), k),
            a.buffer@ == old_a + zeros((a.buffer@.len() - old_a.len()) as nat),
            a.buffer@.len() > old_a.len() ==> a.buffer@.len() / 2 - a.pointer <= n,
            old_a.len() - a.pointer > n ==> a.buffer@.len() == old_a.len(),
        decreases (if a.buffer@.len() - a.pointer > n {
            0
        } else {
            n + 1 - (a.buffer@.len() - a.pointer)
        }),
    {
        let available = a.buffer.len() - a.pointer;
        if available > n {
            break;
        }
        let before = a.buffer.len();
        let ghost prev = a.buffer@;
        if yaml_string_extend(a) == 0 {
            assert(a.buffer@.len() == doubled(old_a.len(), k));
            proof {
                lemma_doubled_zero(k);
                let cur = k;
                assert forall|j: nat|
                    doubled(old_a.len(), j) <= max_block_size() implies doubled(old_a.len(), j)
                    - a.pointer <= n by {
                    if j <= cur {
                        lemma_doubled_grows(old_a.len(), j, cur);
                    } else {
                        lemma_doubled_grows(old_a.len(), cur, j);
                    }
                }
            }
            return 0;
        }
        let after = a.buffer.len();
        proof {
            k = k + 1;
            assert(a.buffer@ =~= old_a + zeros((a.buffer@.len() - old_a.len()) as nat));
        }
        if after <= before {
            assert(a.buffer@.len() == doubled(old_a.len(), k));
            assert(a.buffer@ =~= old_a + zeros((a.buffer@.len() - old_a.len()) as nat));
            proof {
                lemma_doubled_grows(old_a.len(), 0, k);
            }
            return 0;
        }
    }
    assert(a.buffer@.len() == doubled(old_a.len(), k));
    let p = a.pointer;
    let ghost grown = a.buffer@;
    let mut i: usize = 0;
    while i < n
        invariant
            i <= n,
            n == b.pointer,
            n <= b.buffer@.len(),
            p == a.pointer,
            a.buffer@.len() == grown.len(),
            p + n < a.buffer.len(),
            a.buffer@ == grown.take(p as int) + b.buffer@.take(i as int) + grown.skip(p + i),
        decreases n - i,
    {
        a.buffer.set(p + i, b.buffer[i]);
        i += 1;
        assert(a.buffer@ =~= grown.take(p as int) + b.buffer@.take(i as int) + grown.skip(p + i));
    }
    a.pointer = p + n;
    assert(b.used() =~= b.buffer@.take(n as int));
    assert(a.buffer@.len() == doubled(old_a.len(), k));
    assert(k > 0 ==> doubled(old_a.len(), k) <= max_block_size() && doubled(old_a.len(), k)
        - old(a).pointer > n);
    proof {
        lemma_doubled_zero(k);
    }
    1
}

/// A join depends on its source only through the source's bytes in use:
/// two valid sources with the same bytes in use have the same outcomes.
pub proof fn lemma_join_reads_only_used_bytes(
    b1: yaml_string_t,
    b2: yaml_string_t,
    old: yaml_string_t,
    r: i32,
    new: yaml_string_t,
)
    requires
        b1.valid(),
        b2.valid(),
        b1.used() == b2.used(),
    ensures
        join_outcome(old, b1.used(), r, new) == join_outcome(old, b2.used(), r, new),
{
}

/// Joining appends: where each doubling on the way to room for the source's
/// bytes in use and one more succeeds (as `yaml_string_extend` does on a
/// valid string whose doubled capacity a block can hold), the join succeeds
/// and the bytes in use become the old ones followed by the source's; and
/// whenever a join fails, the bytes in use are left as they were.
pub proof fn lemma_join_appends(old: yaml_string_t, src: Seq<u8>, r: i32, new: yaml_string_t)
    requires
        old.valid(),
        join_outcome(old, src, r, new),
    ensures
        (exists|k: nat|
            #![trigger doubled(old.buffer@.len(), k)]
            doubled(old.buffer@.len(), k) - old.pointer > src.len() && forall|j: nat|
                j < k ==> 2 * #[trigger] doubled(old.buffer@.len(), j) <= max_block_size())
            ==> r == 1,
        r == 1 ==> new.valid() && new.used() == old.used() + src,
        r == 0 ==> new.valid() && new.used() == old.used(),
{
    let len = old.buffer@.len();
    let p = old.pointer as int;
    let n = src.len() as int;
    if exists|k: nat|
        #![trigger doubled(len, k)]
        doubled(len, k) - p > n && forall|j: nat| j < k ==> 2 * #[trigger] doubled(len, j)
            <= max_block_size() {
        let k = choose|k: nat|
            #![trigger doubled(len, k)]
            doubled(len, k) - p > n && forall|j: nat| j < k ==> 2 * #[trigger] doubled(len, j)
                <= max_block_size();
        if k > 0 {
            assert(2 * doubled(len, (k - 1) as nat) <= max_block_size());
            assert(doubled(len, k) <= max_block_size());
        } else {
            assert(len - p > n);
        }
        if len == 0 {
            lemma_doubled_zero(k);
        }
    }
    if r == 1 && n > 0 {
        let nl = new.buffer@.len();
        let full = old.buffer@ + zeros((nl - len) as nat);
        assert(full.take(p) =~= old.buffer@.take(p));
        assert(new.buffer@.take(p + n) =~= full.take(p) + src);
    }
    if r == 1 && n == 0 {
        assert(old.used() + src =~= old.used());
    }
}

} // verus!
