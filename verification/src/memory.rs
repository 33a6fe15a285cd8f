//! Memory blocks. A block is a `Vec<u8>` whose length is the size of the
//! block; a null block is `None`. A block holds at most `max_block_size()`
//! bytes, as any Rust allocation does: a request past that size fails, and
//! the functions that allocate report it. Within that size, memory is taken
//! as for any Rust allocation, which stops the process where the system has
//! none left; so a request within the size always succeeds when it returns.
use vstd::prelude::*;

verus! {

/// The size actually requested for a block of `size` bytes: never zero.
pub open spec fn alloc_size(size: usize) -> nat {
    if size == 0 {
        1
    } else {
        size as nat
    }
}

/// The most bytes that a block can hold.
pub open spec fn max_block_size() -> int {
    isize::MAX as int
}

/// `n` zero bytes.
pub open spec fn zeros(n: nat) -> Seq<u8> {
    Seq::new(n, |_i: int| 0u8)
}

/// The contents of a block, `None` for a null block.
pub open spec fn block_view(b: Option<Vec<u8>>) -> Option<Seq<u8>> {
    match b {
        Some(v) => Some(v@),
        None => None,
    }
}

/// Appends `n` zero bytes to `v`; fails, with `v` unchanged, exactly where
/// the grown block would hold more than `max_block_size()` bytes.
pub fn grow_zeroed(v: &mut Vec<u8>, n: usize) -> (r: bool)
    ensures
        r <==> old(v)@.len() + n <= max_block_size(),
        r ==> final(v)@ == old(v)@ + zeros(n as nat),
        !r ==> final(v)@ == old(v)@,
{
    let limit = isize::MAX as usize;
    if v.len() > limit || n > limit - v.len() {
        return false;
    }
    let total = v.len() + n;
    let mut w: Vec<u8> = Vec::with_capacity(total);
    let mut i: usize = 0;
    while i < v.len()
        invariant
            i <= v@.len(),
            w@ == v@.take(i as int),
        decreases v@.len() - i,
    {
        w.push(v[i]);
        i += 1;
        assert(w@ == v@.take(i as int));
    }
    assert(v@.take(v@.len() as int) =~= v@);
    let ghost start = v@;
    let mut j: usize = 0;
    while j < n
        invariant
            j <= n,
            w@ == start + zeros(j as nat),
        decreases n - j,
    {
        w.push(0);
        j += 1;
        assert(w@ =~= start + zeros(j as nat));
    }
    *v = w;
    true
}

/// Allocates a block of `size` bytes (one byte where `size` is zero), all
/// zero; `None` exactly where that is more than a block can hold.
pub fn malloc_compat(size: usize) -> (r: Option<Vec<u8>>)
    ensures
        r is Some <==> alloc_size(size) <= max_block_size(),
        r matches Some(b) ==> b@ == zeros(alloc_size(size)),
{
    let n: usize = if size == 0 {
        1
    } else {
        size
    };
    let mut v: Vec<u8> = Vec::new();
    if grow_zeroed(&mut v, n) {
        assert(v@ == zeros(alloc_size(size)));
        Some(v)
    } else {
        None
    }
}

/// Resizes `block` to `size` bytes (one byte where `size` is zero); a null
/// block is allocated anew. The bytes that both sizes hold are kept, new
/// bytes are zero. Returns `false`, with `block` unchanged, exactly where
/// the block would grow past what a block can hold.
pub fn realloc_compat(block: &mut Option<Vec<u8>>, size: usize) -> (r: bool)
    ensures
        r <==> alloc_size(size) <= max_block_size() || (*old(block) is Some && alloc_size(size)
            <= old(block).unwrap()@.len()),
        r ==> *final(block) is Some,
        r ==> final(block).unwrap()@.len() == alloc_size(size),
        r && *old(block) is None ==> final(block).unwrap()@ == zeros(alloc_size(size)),
        r && *old(block) is Some ==> ({
            let b = old(block).unwrap()@;
            let n = alloc_size(size) as int;
            if n <= b.len() {
                final(block).unwrap()@ == b.take(n)
            } else {
                final(block).unwrap()@ == b + zeros((n - b.len()) as nat)
            }
        }),
        !r ==> block_view(*final(block)) == block_view(*old(block)),
        *old(block) is Some && alloc_size(size) <= old(block).unwrap()@.len() ==> r,
{
    let n: usize = if size == 0 {
        1
    } else {
        size
    };
    match block {
        None => {
            match malloc_compat(size) {
                Some(b) => {
                    *block = Some(b);
                    true
                },
                None => false,
            }
        },
        Some(v) => {
            if n <= v.len() {
                v.truncate(n);
                true
            } else {
                let extra = n - v.len();
                grow_zeroed(v, extra)
            }
        },
    }
}

/// Releases a block; a null block is ignored.
pub fn free_compat(block: Option<Vec<u8>>) {
    match block {
        Some(b) => {
            drop_block(b);
        },
        None => {},
    }
}

/// Gives a block up: its memory is released as it goes out of scope.
fn drop_block(b: Vec<u8>) {
}

/// Whether `k` is where the C string in `s` ends: the first zero byte, or
/// the end of `s` where it holds none.
pub open spec fn c_string_end(s: Seq<u8>, k: int) -> bool {
    &&& 0 <= k <= s.len()
    &&& forall|i: int| 0 <= i < k ==> s[i] != 0
    &&& (k == s.len() || s[k] == 0)
}

/// A C string ends at one place only.
proof fn lemma_c_string_end_unique(s: Seq<u8>, k1: int, k2: int)
    requires
        c_string_end(s, k1),
        c_string_end(s, k2),
    ensures
        k1 == k2,
{
    if k1 < k2 {
        assert(s[k1] != 0);
    } else if k2 < k1 {
        assert(s[k2] != 0);
    }
}

/// Copies the C string at the front of `input` into a new block, with its
/// terminating zero. A null input gives a null block, as does a string too
/// long for a block to hold with its terminating zero.
pub fn strdup_compat(input: Option<&[u8]>) -> (r: Option<Vec<u8>>)
    ensures
        input is None ==> r is None,
        input matches Some(s) ==> (r is Some <==> forall|k: int| #[trigger]
            c_string_end(s@, k) ==> k < max_block_size()),
        r matches Some(b) ==> input is Some && b@.len() >= 1 && c_string_end(
            input.unwrap()@,
            b@.len() - 1,
        ) && b@ == input.unwrap()@.take(b@.len() - 1).push(0),
{
    match input {
        None => None,
        Some(s) => {
            let mut k: usize = 0;
            while k < s.len() && s[k] != 0
                invariant
                    k <= s@.len(),
                    forall|i: int| 0 <= i < k ==> s@[i] != 0,
                decreases s@.len() - k,
            {
                k += 1;
            }
            assert(c_string_end(s@, k as int));
            proof {
                assert forall|j: int| #[trigger] c_string_end(s@, j) implies j == k by {
                    lemma_c_string_end_unique(s@, j, k as int);
                }
            }
            if k >= isize::MAX as usize {
                return None;
            }
            let mut out: Vec<u8> = Vec::with_capacity(k + 1);
            let mut i: usize = 0;
            while i < k
                invariant
                    i <= k <= s@.len(),
                    out@ == s@.take(i as int),
                decreases k - i,
            {
                out.push(s[i]);
                i += 1;
                assert(out@ == s@.take(i as int));
            }
            out.push(0);
            Some(out)
        },
    }
}

/// Sets `size` bytes of `dest` from `start` on to zero.
pub fn zero_bytes(dest: &mut Vec<u8>, start: usize, size: usize)
    requires
        start + size <= old(dest).len(),
    ensures
        final(dest)@.len() == old(dest)@.len(),
        forall|i: int|
            0 <= i < old(dest)@.len() ==> #[trigger] final(dest)@[i] == if start <= i < start + size {
                0u8
            } else {
                old(dest)@[i]
            },
{
    let mut i: usize = 0;
    while i < size
        invariant
            i <= size,
            start + size <= old(dest).len(),
            dest@.len() == old(dest)@.len(),
            forall|j: int|
                0 <= j < old(dest)@.len() ==> #[trigger] dest@[j] == if start <= j < start + i {
                    0u8
                } else {
                    old(dest)@[j]
                },
        decreases size - i,
    {
        dest.set(start + i, 0);
        i += 1;
    }
}

/// Copies `size` bytes of `src` from `src_start` on into `dest` from
/// `dest_start` on.
pub fn copy_bytes(dest: &mut Vec<u8>, dest_start: usize, src: &[u8], src_start: usize, size: usize)
    requires
        dest_start + size <= old(dest).len(),
        src_start + size <= src.len(),
    ensures
        final(dest)@.len() == old(dest)@.len(),
        forall|i: int|
            0 <= i < old(dest)@.len() ==> #[trigger] final(dest)@[i] == if dest_start <= i
                < dest_start + size {
                src@[src_start + i - dest_start]
            } else {
                old(dest)@[i]
            },
{
    let mut i: usize = 0;
    while i < size
        invariant
            i <= size,
            dest_start + size <= old(dest).len(),
            src_start + size <= src.len(),
            dest@.len() == old(dest)@.len(),
            forall|j: int|
                0 <= j < old(dest)@.len() ==> #[trigger] dest@[j] == if dest_start <= j
                    < dest_start + i {
                    src@[src_start + j - dest_start]
                } else {
                    old(dest)@[j]
                },
        decreases size - i,
    {
        dest.set(dest_start + i, src[src_start + i]);
        i += 1;
    }
}

/// Moves `size` bytes of `buf` from `src` on to `dest` on; the two ranges
/// may overlap.
pub fn move_bytes(buf: &mut Vec<u8>, dest: usize, src: usize, size: usize)
    requires
        dest + size <= old(buf).len(),
        src + size <= old(buf).len(),
    ensures
        final(buf)@.len() == old(buf)@.len(),
        forall|i: int|
            0 <= i < old(buf)@.len() ==> #[trigger] final(buf)@[i] == if dest <= i < dest + size {
                old(buf)@[src + i - dest]
            } else {
                old(buf)@[i]
            },
{
    if dest <= src {
        let mut i: usize = 0;
        while i < size
            invariant
                i <= size,
                dest <= src,
                dest + size <= old(buf).len(),
                src + size <= old(buf).len(),
                buf@.len() == old(buf)@.len(),
                forall|j: int|
                    0 <= j < old(buf)@.len() ==> #[trigger] buf@[j] == if dest <= j < dest + i {
                        old(buf)@[src + j - dest]
                    } else {
                        old(buf)@[j]
                    },
            decreases size - i,
        {
            let b = buf[src + i];
            buf.set(dest + i, b);
            i += 1;
        }
    } else {
        let mut i: usize = size;
        while i > 0
            invariant
                i <= size,
                dest > src,
                dest + size <= old(buf).len(),
                src + size <= old(buf).len(),
                buf@.len() == old(buf)@.len(),
                forall|j: int|
                    0 <= j < old(buf)@.len() ==> #[trigger] buf@[j] == if dest + i <= j < dest
                        + size {
                        old(buf)@[src + j - dest]
                    } else {
                        old(buf)@[j]
                    },
            decreases i,
        {
            i -= 1;
            let b = buf[src + i];
            buf.set(dest + i, b);
        }
    }
}

/// Allocates a block: see `malloc_compat`.
pub fn yaml_malloc(size: usize) -> (r: Option<Vec<u8>>)
    ensures
        r is Some <==> alloc_size(size) <= max_block_size(),
        r matches Some(b) ==> b@ == zeros(alloc_size(size)),
{
    malloc_compat(size)
}

/// Resizes a block: see `realloc_compat`.
pub fn yaml_realloc(block: &mut Option<Vec<u8>>, size: usize) -> (r: bool)
    ensures
        r <==> alloc_size(size) <= max_block_size() || (*old(block) is Some && alloc_size(size)
            <= old(block).unwrap()@.len()),
        r ==> *final(block) is Some,
        r ==> final(block).unwrap()@.len() == alloc_size(size),
        r && *old(block) is None ==> final(block).unwrap()@ == zeros(alloc_size(size)),
        r && *old(block) is Some ==> ({
            let b = old(block).unwrap()@;
            let n = alloc_size(size) as int;
            if n <= b.len() {
                final(block).unwrap()@ == b.take(n)
            } else {
                final(block).unwrap()@ == b + zeros((n - b.len()) as nat)
            }
        }),
        !r ==> block_view(*final(block)) == block_view(*old(block)),
        *old(block) is Some && alloc_size(size) <= old(block).unwrap()@.len() ==> r,
{
    realloc_compat(block, size)
}

/// Releases a block: see `free_compat`.
pub fn yaml_free(block: Option<Vec<u8>>) {
    free_compat(block)
}

/// Duplicates a C string: see `strdup_compat`.
pub fn yaml_strdup(input: Option<&[u8]>) -> (r: Option<Vec<u8>>)
    ensures
        input is None ==> r is None,
        input matches Some(s) ==> (r is Some <==> forall|k: int| #[trigger]
            c_string_end(s@, k) ==> k < max_block_size()),
        r matches Some(b) ==> input is Some && b@.len() >= 1 && c_string_end(
            input.unwrap()@,
            b@.len() - 1,
        ) && b@ == input.unwrap()@.take(b@.len() - 1).push(0),
{
    strdup_compat(input)
}

} // verus!
