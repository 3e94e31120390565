//! Block compression, which another crate does.

use vstd::prelude::*;

use crate::bytes;

verus! {

/// What a compressed block expands to, or the sentence that says why it does
/// not.
pub uninterp spec fn expanded(block: Seq<u8>) -> core::result::Result<Seq<u8>, Seq<char>>;

/// The largest block for which a round trip is claimed, 32 MiB below four
/// gigabytes: not far beyond, the compressed form may take more bytes than 32 bits
/// can count.
pub const MAX_BLOCK: u64 = 0xfe00_0000;

/// A run of `0xff` bytes that is this long can stand for a length that is too large
/// for the expander: one that does not fit in 32 bits, or on a machine with words of
/// 32 bits, in 31.
pub open spec fn long_run() -> int {
    if usize::MAX > 0xffff_ffff {
        16_843_009
    } else {
        8_421_504
    }
}

/// How long a run of `0xff` bytes has to be to stand for a length that is too large.
fn longest_run() -> (r: usize)
    ensures
        r == long_run(),
{
    if usize::MAX as u64 > 0xffff_ffff {
        16_843_009
    } else {
        8_421_504
    }
}

/// Whether a run of `n` bytes `0xff` starts at `at`.
pub open spec fn run_at(block: Seq<u8>, at: int, n: int) -> bool {
    forall|i: int| at <= i < at + n ==> #[trigger] block[i] == 0xffu8
}

/// Whether a block can be handed to the expander: the size in its first four
/// bytes can be allocated, and no run of `0xff` is so long that a length
/// overflows.
pub open spec fn expandable(block: Seq<u8>) -> bool {
    &&& block.len() >= 4 ==> bytes::from_le(block.subrange(0, 4)) <= isize::MAX
    &&& forall|at: int|
        0 <= at && at + long_run() <= block.len() ==> !#[trigger] run_at(block, at, long_run())
}

/// What is claimed of the compressed form of `raw`, up to the largest block: it
/// expands to `raw`.
pub open spec fn compresses(block: Seq<u8>, raw: Seq<u8>) -> bool {
    raw.len() <= MAX_BLOCK ==> {
        &&& expandable(block)
        &&& expanded(block) == Ok::<Seq<u8>, Seq<char>>(raw)
    }
}

/// `lz4_flex::compress_prepend_size`: the block that comes out expands to the
/// bytes that went in. Which bytes it is made of is not said, because the
/// matches that the compressor finds depend on the width of a machine word. A
/// match never takes more bytes than it stands for, and literals take one more byte
/// for each 255 of them, besides the first few and the four bytes of the size. So a
/// block of up to [`MAX_BLOCK`] bytes holds no long run of `0xff`: literals of equal
/// bytes end at the second probe inside them, within some 33 thousand bytes, and a
/// length takes one byte for each 255 that it counts, which is 16.72 million at
/// most.
#[verifier::external_body]
pub(crate) fn compress(raw: &[u8]) -> (r: Vec<u8>)
    requires
        raw@.len() <= usize::MAX / 110,
    ensures
        compresses(r@, raw@),
        r@.len() <= 24 + raw@.len() + raw@.len() / 255,
{
    lz4_flex::compress_prepend_size(raw)
}

/// `lz4_flex::decompress_size_prepended`: what comes out depends on the block
/// alone, and is called [`expanded`] in contracts. An error is handed on as its
/// text.
#[verifier::external_body]
fn expand_block(block: &[u8]) -> (r: core::result::Result<Vec<u8>, String>)
    requires
        expandable(block@),
    ensures
        match r {
            Ok(v) => expanded(block@) == Ok::<Seq<u8>, Seq<char>>(v@),
            Err(m) => expanded(block@) == Err::<Seq<u8>, Seq<char>>(m@),
        },
{
    lz4_flex::decompress_size_prepended(block).map_err(|e| format!("{e}"))
}

/// The failure of a block that cannot be handed to the expander.
pub open spec fn refused() -> Seq<char> {
    "a length in the block is too large"@
}

/// What a block expands to, with the blocks that cannot be expanded refused.
pub open spec fn expansion(block: Seq<u8>) -> core::result::Result<Seq<u8>, Seq<char>> {
    if expandable(block) {
        expanded(block)
    } else {
        Err(refused())
    }
}

/// Whether a block can be handed to the expander.
fn is_expandable(block: &[u8]) -> (r: bool)
    ensures
        r == expandable(block@),
{
    let n: usize = block.len();
    if n >= 4 && bytes::get_u32(block, 0) as u64 > isize::MAX as u64 {
        return false;
    }
    let long: usize = longest_run();
    let mut run: usize = 0;
    let mut i: usize = 0;
    while i < n
        invariant
            i <= n == block@.len(),
            long == long_run(),
            run <= i,
            run < long,
            run_at(block@, i - run, run as int),
            run < i ==> block@[i - run - 1] != 0xff,
            forall|at: int|
                0 <= at && at + long <= i ==> !#[trigger] run_at(block@, at, long as int),
        decreases n - i,
    {
        let ghost before = run;
        if block[i] == 0xff {
            run += 1;
            if run == long {
                assert(run_at(block@, i + 1 - run, long as int));
                return false;
            }
        } else {
            run = 0;
        }
        proof {
            assert forall|at: int| 0 <= at && at + long <= i + 1 implies !#[trigger] run_at(
                block@,
                at,
                long as int,
            ) by {
                if at + long == i + 1 && run_at(block@, at, long as int) {
                    assert(block@[i as int] == 0xff);
                    assert(at < i + 1 - run);
                    assert(block@[i - before - 1] != 0xff);
                }
            }
        }
        i += 1;
    }
    true
}

/// Expand a block.
pub fn expand(block: &[u8]) -> (r: core::result::Result<Vec<u8>, String>)
    ensures
        match r {
            Ok(v) => expansion(block@) == Ok::<Seq<u8>, Seq<char>>(v@),
            Err(m) => expansion(block@) == Err::<Seq<u8>, Seq<char>>(m@),
        },
{
    if is_expandable(block) {
        expand_block(block)
    } else {
        Err(crate::text::copy_text("a length in the block is too large"))
    }
}

/// Which blocks are expanded: all whose first four bytes name a size that memory can be
/// addressed with and in which no run of `0xff` is longer than any length can be. A block
/// of less than eight megabytes has no such run.
pub proof fn what_is_expanded(block: Seq<u8>)
    requires
        block.len() >= 4,
        bytes::from_le(block.take(4)) <= isize::MAX,
        block.len() < 8_000_000,
    ensures
        expandable(block),
        expansion(block) == expanded(block),
{
    assert(block.subrange(0, 4) =~= block.take(4));
}

/// Every block that memory can hold expanded is read as the expander reads it, unless it
/// has a run of `0xff` that stands for a length of four gigabytes.
pub proof fn what_is_refused(block: Seq<u8>)
    requires
        !expandable(block),
    ensures
        expansion(block) is Err,
        block.len() >= 4,
        bytes::from_le(block.take(4)) > isize::MAX || exists|at: int|
            0 <= at && at + 8_421_504 <= block.len() && #[trigger] run_at(block, at, 8_421_504),
{
    assert(block.subrange(0, 4) =~= block.take(4));
    if !(block.len() >= 4 && bytes::from_le(block.subrange(0, 4)) > isize::MAX) {
        let at = choose|at: int|
            0 <= at && at + long_run() <= block.len() && #[trigger] run_at(block, at, long_run());
        assert(run_at(block, at, 8_421_504));
    }
}

} // verus!
