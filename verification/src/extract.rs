//! The extractor: classify each line of a target log against the index and
//! assemble the unrecognized lines into ordered error blocks.

use vstd::prelude::*;

use crate::index::Index;
use crate::sanitize::NoiseContext;
use crate::sanitize::all_plain;
use crate::sanitize::is_trimmed;
use crate::sanitize::lines_view;
use crate::sanitize::push_range;
use crate::sanitize::spec_clean;
use crate::sanitize::spec_split_lines;
use crate::sanitize::split_lines;

verus! {

/// One log line: the original bytes paired with their sanitized form.
pub struct Line {
    pub original: Vec<u8>,
    pub sanitized: Vec<u8>,
}

impl Line {
    /// The sanitized form, the unit of comparison against the index.
    pub fn sanitized(&self) -> (r: &Vec<u8>)
        ensures
            r@ == self.sanitized@,
    {
        &self.sanitized
    }
}

/// Tunables of one extraction run.
pub struct Config {
    /// Longest run of recognized lines tolerated inside a block before the
    /// block is closed.
    pub max_gap: usize,
    /// Smallest number of unrecognized lines a block must hold to be
    /// reported.
    pub min_block_lines: usize,
}

impl Default for Config {
    /// The defaults are a starting point, not policy: one recognized line
    /// does not split a block, and a lone unrecognized line is not worth a
    /// report.
    fn default() -> (c: Config)
        ensures
            c.max_gap == 1,
            c.min_block_lines == 2,
    {
        Config { max_gap: 1, min_block_lines: 2 }
    }
}

/// A line is unknown when it is non-blank and the index does not hold its
/// sanitized form. Blank lines are always treated as recognized, so stray
/// blank output neither opens nor splits a block.
pub open spec fn is_unknown(contents: Set<Seq<u8>>, sanitized: Seq<u8>) -> bool {
    sanitized.len() > 0 && !contents.contains(sanitized)
}

/// The unknown-flag of every line of a log, in order.
pub open spec fn spec_flags(contents: Set<Seq<u8>>, lines: Seq<Line>) -> Seq<bool> {
    lines.map_values(|l: Line| is_unknown(contents, l.sanitized@))
}

/// One left-to-right scan over the unknown-flags, carried out from line
/// `i` onwards.
///
/// The open candidate block is `block` (indices up to and including its
/// last unknown line), `unknowns` counts the unknown lines in it, and
/// `pending` buffers the recognized lines seen since that last unknown
/// line; an empty `block` means no candidate is open. `acc` holds the
/// blocks already emitted.
pub open spec fn scan(
    max_gap: int,
    min_len: int,
    flags: Seq<bool>,
    i: int,
    block: Seq<int>,
    unknowns: int,
    pending: Seq<int>,
    acc: Seq<Seq<int>>,
) -> Seq<Seq<int>>
    decreases flags.len() - i,
    when 0 <= i
{
    if i >= flags.len() {
        if block.len() > 0 && unknowns >= min_len {
            acc.push(block)
        } else {
            acc
        }
    } else if flags[i] {
        if block.len() == 0 {
            scan(max_gap, min_len, flags, i + 1, seq![i], 1, Seq::empty(), acc)
        } else {
            scan(max_gap, min_len, flags, i + 1, block + pending.push(i), unknowns + 1, Seq::empty(), acc)
        }
    } else {
        if block.len() == 0 {
            scan(max_gap, min_len, flags, i + 1, block, unknowns, pending, acc)
        } else if pending.len() + 1 > max_gap {
            if unknowns >= min_len {
                scan(max_gap, min_len, flags, i + 1, Seq::empty(), 0, Seq::empty(), acc.push(block))
            } else {
                scan(max_gap, min_len, flags, i + 1, Seq::empty(), 0, Seq::empty(), acc)
            }
        } else {
            scan(max_gap, min_len, flags, i + 1, block, unknowns, pending.push(i), acc)
        }
    }
}

/// The blocks extracted from a log whose unknown-flags are `flags`: each
/// block a sequence of line indices.
pub open spec fn spec_extract(max_gap: int, min_len: int, flags: Seq<bool>) -> Seq<Seq<int>> {
    scan(max_gap, min_len, flags, 0, Seq::empty(), 0, Seq::empty(), Seq::empty())
}

/// The indices of one extracted block, as mathematical integers.
pub open spec fn view_block(b: Vec<usize>) -> Seq<int> {
    b@.map_values(|x: usize| x as int)
}

/// The extracted blocks, as sequences of mathematical integers.
pub open spec fn view_blocks(bs: Seq<Vec<usize>>) -> Seq<Seq<int>> {
    bs.map_values(|b: Vec<usize>| view_block(b))
}

/// Classify every line of `lines` against `index` and group the unknown
/// ones into ordered blocks of line indices, tolerating up to
/// `config.max_gap` recognized lines inside a block and dropping blocks
/// with fewer than `config.min_block_lines` unknown lines.
///
/// The result is a pure function of the configuration, the index contents
/// and the lines: extracting the same log against the same index twice
/// yields identical block sequences.
#[verifier::loop_isolation(false)]
pub fn extract(config: &Config, index: &Index, lines: &Vec<Line>) -> (blocks: Vec<Vec<usize>>)
    ensures
        view_blocks(blocks@) == spec_extract(
            config.max_gap as int,
            config.min_block_lines as int,
            spec_flags(index.contents(), lines@),
        ),
{
    let ghost g: int = config.max_gap as int;
    let ghost m: int = config.min_block_lines as int;
    let ghost flags: Seq<bool> = spec_flags(index.contents(), lines@);

    let mut blocks: Vec<Vec<usize>> = Vec::new();
    let mut block: Vec<usize> = Vec::new();
    let mut unknowns: usize = 0;
    let mut pending: Vec<usize> = Vec::new();

    assert(view_block(block) =~= Seq::<int>::empty());
    assert(view_block(pending) =~= Seq::<int>::empty());
    assert(view_blocks(blocks@) =~= Seq::<Seq<int>>::empty());

    let mut i: usize = 0;
    while i < lines.len()
        invariant
            0 <= i <= lines.len(),
            scan(g, m, flags, i as int, view_block(block), unknowns as int, view_block(pending), view_blocks(blocks@))
                == spec_extract(g, m, flags),
            unknowns <= i,
        decreases lines.len() - i,
    {
        let line = &lines[i];
        let unknown = line.sanitized.len() > 0 && !index.contains(line.sanitized.as_slice());
        assert(unknown == flags[i as int]);

        if unknown {
            if block.len() == 0 {
                assert(view_block(block) =~= Seq::<int>::empty());
                block.push(i);
                unknowns = 1;
                pending = Vec::new();
                assert(view_block(block) =~= seq![i as int]);
                assert(view_block(pending) =~= Seq::<int>::empty());
            } else {
                let ghost old_block = view_block(block);
                let ghost old_pending = view_block(pending);
                let mut k: usize = 0;
                while k < pending.len()
                    invariant
                        0 <= k <= pending.len(),
                        view_block(pending) == old_pending,
                        view_block(block) == old_block + old_pending.take(k as int),
                    decreases pending.len() - k,
                {
                    assert(pending@[k as int] as int == old_pending[k as int]);
                    let ghost prev = view_block(block);
                    block.push(pending[k]);
                    assert(view_block(block) =~= prev.push(old_pending[k as int]));
                    assert(prev.push(old_pending[k as int]) =~= old_block + old_pending.take(k as int + 1));
                    k = k + 1;
                }
                assert(old_pending.take(pending.len() as int) =~= old_pending);
                assert(view_block(block) == old_block + old_pending);
                block.push(i);
                assert(view_block(block) =~= (old_block + old_pending).push(i as int));
                assert((old_block + old_pending).push(i as int) =~= old_block + old_pending.push(i as int));
                unknowns = unknowns + 1;
                pending = Vec::new();
                assert(view_block(pending) =~= Seq::<int>::empty());
            }
        } else {
            if block.len() == 0 {
                // still seeking: nothing changes
            } else if pending.len() >= config.max_gap {
                // the gap just exceeded max_gap: close the block, trimmed
                // back to its last unknown line
                if unknowns >= config.min_block_lines {
                    let ghost old_blocks = view_blocks(blocks@);
                    let ghost old_block = view_block(block);
                    blocks.push(block);
                    assert(view_blocks(blocks@) =~= old_blocks.push(old_block));
                }
                block = Vec::new();
                unknowns = 0;
                pending = Vec::new();
                assert(view_block(block) =~= Seq::<int>::empty());
                assert(view_block(pending) =~= Seq::<int>::empty());
            } else {
                let ghost old_pending = view_block(pending);
                pending.push(i);
                assert(view_block(pending) =~= old_pending.push(i as int));
            }
        }
        i = i + 1;
    }

    if block.len() > 0 && unknowns >= config.min_block_lines {
        let ghost old_blocks = view_blocks(blocks@);
        let ghost old_block = view_block(block);
        blocks.push(block);
        assert(view_blocks(blocks@) =~= old_blocks.push(old_block));
    }
    blocks
}

/// The indices of one block, in strictly increasing order.
pub open spec fn strictly_increasing(b: Seq<int>) -> bool {
    forall|p: int, q: int| 0 <= p < q < b.len() ==> b[p] < b[q]
}

/// Every index of the block lies in `[0, n)`.
pub open spec fn within(b: Seq<int>, n: int) -> bool {
    forall|p: int| 0 <= p < b.len() ==> 0 <= #[trigger] b[p] < n
}

/// How many lines of the block are unknown.
pub open spec fn unknown_count(flags: Seq<bool>, b: Seq<int>) -> int
    decreases b.len(),
{
    if b.len() == 0 {
        0
    } else {
        unknown_count(flags, b.drop_last()) + if flags[b.last()] { 1int } else { 0int }
    }
}

proof fn lemma_count_push(flags: Seq<bool>, b: Seq<int>, x: int)
    ensures
        unknown_count(flags, b.push(x)) == unknown_count(flags, b) + if flags[x] { 1int } else { 0int },
{
    assert(b.push(x).drop_last() =~= b);
    assert(b.push(x).last() == x);
}

proof fn lemma_count_concat(flags: Seq<bool>, a: Seq<int>, b: Seq<int>)
    ensures
        unknown_count(flags, a + b) == unknown_count(flags, a) + unknown_count(flags, b),
    decreases b.len(),
{
    if b.len() == 0 {
        assert(a + b =~= a);
    } else {
        assert((a + b).drop_last() =~= a + b.drop_last());
        assert((a + b).last() == b.last());
        lemma_count_concat(flags, a, b.drop_last());
    }
}

/// A reported block is well formed: non-empty, inside the log, in source
/// order, and opened and closed by an unknown line. In particular a
/// recognized line (and so any blank line, which is always recognized)
/// never starts or ends a block.
pub open spec fn block_well_formed(flags: Seq<bool>, b: Seq<int>) -> bool {
    &&& b.len() > 0
    &&& strictly_increasing(b)
    &&& within(b, flags.len() as int)
    &&& flags[b.first()]
    &&& flags[b.last()]
}

proof fn lemma_scan_ordered(
    max_gap: int,
    min_len: int,
    flags: Seq<bool>,
    i: int,
    block: Seq<int>,
    unknowns: int,
    pending: Seq<int>,
    acc: Seq<Seq<int>>,
)
    requires
        0 <= i <= flags.len(),
        forall|k: int| 0 <= k < acc.len() ==> block_well_formed(flags, #[trigger] acc[k]),
        forall|k: int| 0 <= k < acc.len() ==> unknown_count(flags, #[trigger] acc[k]) >= min_len,
        forall|k: int| 0 <= k < acc.len() - 1 ==> (#[trigger] acc[k]).last() < acc[k + 1].first(),
        block.len() == 0 ==> pending.len() == 0 && unknowns == 0,
        block.len() > 0 ==> strictly_increasing(block) && within(block, i) && flags[block.first()]
            && flags[block.last()],
        block.len() > 0 ==> unknowns == unknown_count(flags, block),
        block.len() > 0 && acc.len() > 0 ==> acc.last().last() < block.first(),
        acc.len() > 0 ==> acc.last().last() < i,
        strictly_increasing(pending),
        within(pending, i),
        block.len() > 0 && pending.len() > 0 ==> block.last() < pending.first(),
        forall|p: int| 0 <= p < pending.len() ==> !flags[#[trigger] pending[p]],
    ensures
        ({
            let bs = scan(max_gap, min_len, flags, i, block, unknowns, pending, acc);
            &&& forall|k: int| 0 <= k < bs.len() ==> block_well_formed(flags, #[trigger] bs[k])
            &&& forall|k: int| 0 <= k < bs.len() ==> unknown_count(flags, #[trigger] bs[k]) >= min_len
            &&& forall|k: int| 0 <= k < bs.len() - 1 ==> (#[trigger] bs[k]).last() < bs[k + 1].first()
        }),
    decreases flags.len() - i,
{
    if i >= flags.len() {
        // closing: at most the open block is appended
        if block.len() > 0 && unknowns >= min_len {
            let bs = acc.push(block);
            assert(i == flags.len());
            assert(forall|k: int| 0 <= k < acc.len() ==> bs[k] == acc[k]);
            assert(bs[acc.len() as int] == block);
            assert(forall|k: int| 0 <= k < bs.len() ==> block_well_formed(flags, #[trigger] bs[k]));
            assert(forall|k: int| 0 <= k < bs.len() ==> unknown_count(flags, #[trigger] bs[k]) >= min_len);
            assert(forall|k: int| 0 <= k < bs.len() - 1 ==> (#[trigger] bs[k]).last() < bs[k + 1].first());
            assert(scan(max_gap, min_len, flags, i, block, unknowns, pending, acc) == bs);
        }
    } else if flags[i] {
        if block.len() == 0 {
            assert(unknown_count(flags, seq![i]) == 1) by {
                assert(unknown_count(flags, Seq::<int>::empty()) == 0);
                assert(seq![i].drop_last() =~= Seq::<int>::empty());
                assert(seq![i].last() == i);
                assert(flags[i]);
            }
            lemma_scan_ordered(max_gap, min_len, flags, i + 1, seq![i], 1, Seq::empty(), acc);
            assert(scan(max_gap, min_len, flags, i, block, unknowns, pending, acc)
                == scan(max_gap, min_len, flags, i + 1, seq![i], 1, Seq::empty(), acc));
        } else {
            let nb = block + pending.push(i);
            assert(strictly_increasing(nb)) by {
                assert forall|p: int, q: int| 0 <= p < q < nb.len() implies nb[p] < nb[q] by {
                    if q < block.len() {
                    } else if p < block.len() {
                        assert(nb[p] == block[p]);
                        assert(block[p] <= block.last());
                        if q < nb.len() - 1 {
                            assert(nb[q] == pending[q - block.len()]);
                            assert(pending.first() <= pending[q - block.len()]);
                        } else {
                            assert(nb[q] == i);
                        }
                    } else {
                        if q < nb.len() - 1 {
                            assert(nb[p] == pending[p - block.len()]);
                            assert(nb[q] == pending[q - block.len()]);
                        } else {
                            assert(nb[q] == i);
                        }
                    }
                }
            }
            assert(nb.first() == block.first());
            assert(nb.last() == i);
            assert(unknown_count(flags, nb) == unknowns + 1) by {
                lemma_count_concat(flags, block, pending.push(i));
                lemma_count_push(flags, pending, i);
                lemma_count_all_known(flags, pending);
            }
            lemma_scan_ordered(max_gap, min_len, flags, i + 1, nb, unknowns + 1, Seq::empty(), acc);
            assert(scan(max_gap, min_len, flags, i, block, unknowns, pending, acc)
                == scan(max_gap, min_len, flags, i + 1, nb, unknowns + 1, Seq::empty(), acc));
        }
    } else {
        if block.len() == 0 {
            lemma_scan_ordered(max_gap, min_len, flags, i + 1, block, unknowns, pending, acc);
            assert(scan(max_gap, min_len, flags, i, block, unknowns, pending, acc)
                == scan(max_gap, min_len, flags, i + 1, block, unknowns, pending, acc));
        } else if pending.len() + 1 > max_gap {
            if unknowns >= min_len {
                let nacc = acc.push(block);
                assert(forall|k: int| 0 <= k < nacc.len() ==> block_well_formed(flags, #[trigger] nacc[k]));
                assert(forall|k: int| 0 <= k < nacc.len() - 1 ==> (#[trigger] nacc[k]).last() < nacc[k + 1].first());
                lemma_scan_ordered(max_gap, min_len, flags, i + 1, Seq::empty(), 0, Seq::empty(), nacc);
                assert(scan(max_gap, min_len, flags, i, block, unknowns, pending, acc)
                    == scan(max_gap, min_len, flags, i + 1, Seq::empty(), 0, Seq::empty(), nacc));
            } else {
                lemma_scan_ordered(max_gap, min_len, flags, i + 1, Seq::empty(), 0, Seq::empty(), acc);
                assert(scan(max_gap, min_len, flags, i, block, unknowns, pending, acc)
                    == scan(max_gap, min_len, flags, i + 1, Seq::empty(), 0, Seq::empty(), acc));
            }
        } else {
            let np = pending.push(i);
            assert(strictly_increasing(np)) by {
                assert forall|p: int, q: int| 0 <= p < q < np.len() implies np[p] < np[q] by {
                    if q < np.len() - 1 {
                        assert(np[p] == pending[p]);
                        assert(np[q] == pending[q]);
                    } else {
                        assert(np[q] == i);
                    }
                }
            }
            if pending.len() == 0 {
                assert(np.first() == i);
            } else {
                assert(np.first() == pending.first());
            }
            lemma_scan_ordered(max_gap, min_len, flags, i + 1, block, unknowns, np, acc);
            assert(scan(max_gap, min_len, flags, i, block, unknowns, pending, acc)
                == scan(max_gap, min_len, flags, i + 1, block, unknowns, np, acc));
        }
    }
}

proof fn lemma_count_all_known(flags: Seq<bool>, b: Seq<int>)
    requires
        forall|p: int| 0 <= p < b.len() ==> !flags[#[trigger] b[p]],
    ensures
        unknown_count(flags, b) == 0,
    decreases b.len(),
{
    if b.len() > 0 {
        lemma_count_all_known(flags, b.drop_last());
    }
}

proof fn lemma_count_nonneg(flags: Seq<bool>, b: Seq<int>)
    ensures
        unknown_count(flags, b) >= 0,
    decreases b.len(),
{
    if b.len() > 0 {
        lemma_count_nonneg(flags, b.drop_last());
    }
}

proof fn lemma_count_pos(flags: Seq<bool>, b: Seq<int>, l: int)
    requires
        0 <= l < b.len(),
        flags[b[l]],
    ensures
        unknown_count(flags, b) > 0,
    decreases b.len(),
{
    if l == b.len() - 1 {
        lemma_count_nonneg(flags, b.drop_last());
    } else {
        assert(b.drop_last()[l] == b[l]);
        lemma_count_pos(flags, b.drop_last(), l);
    }
}

/// The block's indices are consecutive: index `j` of the block is the
/// block's first line plus `j`.
pub open spec fn contiguous(b: Seq<int>) -> bool {
    forall|j: int| 0 <= j < b.len() ==> #[trigger] b[j] == b.first() + j
}

/// Every window of `max_gap + 1` consecutive lines of the block holds at
/// least one unknown line: recognized lines come in runs of at most
/// `max_gap` inside a block.
pub open spec fn gaps_bounded(flags: Seq<bool>, b: Seq<int>, max_gap: int) -> bool {
    forall|j: int|
        0 <= j && j + max_gap + 1 <= b.len() ==> unknown_count(
            flags,
            #[trigger] b.subrange(j, j + max_gap + 1),
        ) > 0
}

proof fn lemma_scan_gap_bounded(
    max_gap: int,
    min_len: int,
    flags: Seq<bool>,
    i: int,
    block: Seq<int>,
    unknowns: int,
    pending: Seq<int>,
    acc: Seq<Seq<int>>,
)
    requires
        max_gap >= 0,
        0 <= i <= flags.len(),
        forall|k: int| 0 <= k < acc.len() ==> contiguous(#[trigger] acc[k]),
        forall|k: int| 0 <= k < acc.len() ==> gaps_bounded(flags, #[trigger] acc[k], max_gap),
        block.len() == 0 ==> pending.len() == 0,
        contiguous(block),
        gaps_bounded(flags, block, max_gap),
        block.len() > 0 ==> flags[block.last()],
        block.len() > 0 && pending.len() == 0 ==> block.last() == i - 1,
        pending.len() > 0 ==> pending.first() == block.last() + 1 && pending.last() == i - 1,
        pending.len() <= max_gap,
        contiguous(pending),
    ensures
        ({
            let bs = scan(max_gap, min_len, flags, i, block, unknowns, pending, acc);
            &&& forall|k: int| 0 <= k < bs.len() ==> contiguous(#[trigger] bs[k])
            &&& forall|k: int| 0 <= k < bs.len() ==> gaps_bounded(flags, #[trigger] bs[k], max_gap)
        }),
    decreases flags.len() - i,
{
    if i >= flags.len() {
        if block.len() > 0 && unknowns >= min_len {
            let bs = acc.push(block);
            assert(forall|k: int| 0 <= k < acc.len() ==> bs[k] == acc[k]);
            assert(bs[acc.len() as int] == block);
            assert(forall|k: int| 0 <= k < bs.len() ==> contiguous(#[trigger] bs[k]));
            assert(forall|k: int|
                0 <= k < bs.len() ==> gaps_bounded(flags, #[trigger] bs[k], max_gap));
            assert(scan(max_gap, min_len, flags, i, block, unknowns, pending, acc) == bs);
        }
    } else if flags[i] {
        if block.len() == 0 {
            let nb = seq![i];
            assert(contiguous(nb));
            assert(gaps_bounded(flags, nb, max_gap)) by {
                assert forall|j: int| 0 <= j && j + max_gap + 1 <= nb.len() implies unknown_count(
                    flags,
                    #[trigger] nb.subrange(j, j + max_gap + 1),
                ) > 0 by {
                    assert(nb.subrange(j, j + max_gap + 1)[0] == i);
                    lemma_count_pos(flags, nb.subrange(j, j + max_gap + 1), 0);
                }
            }
            lemma_scan_gap_bounded(max_gap, min_len, flags, i + 1, nb, 1, Seq::empty(), acc);
            assert(scan(max_gap, min_len, flags, i, block, unknowns, pending, acc)
                == scan(max_gap, min_len, flags, i + 1, nb, 1, Seq::empty(), acc));
        } else {
            let nb = block + pending.push(i);
            let bl = block.len() as int;
            let pl = pending.len() as int;
            assert(contiguous(nb)) by {
                assert forall|j: int| 0 <= j < nb.len() implies #[trigger] nb[j] == nb.first()
                    + j by {
                    assert(nb.first() == block.first());
                    if j < bl {
                        assert(nb[j] == block[j]);
                    } else if j < bl + pl {
                        assert(nb[j] == pending[j - bl]);
                        assert(pending[j - bl] == pending.first() + (j - bl));
                        assert(block.last() == block.first() + (bl - 1));
                    } else {
                        assert(nb[j] == i);
                        if pl > 0 {
                            assert(pending.last() == pending.first() + (pl - 1));
                            assert(pending.first() == block.last() + 1);
                        }
                        assert(block.last() == block.first() + (bl - 1));
                    }
                }
            }
            assert(nb.last() == i);
            assert(flags[nb.last()]);
            assert(gaps_bounded(flags, nb, max_gap)) by {
                assert forall|j: int| 0 <= j && j + max_gap + 1 <= nb.len() implies unknown_count(
                    flags,
                    #[trigger] nb.subrange(j, j + max_gap + 1),
                ) > 0 by {
                    let w = nb.subrange(j, j + max_gap + 1);
                    if j + max_gap + 1 <= bl {
                        assert(w =~= block.subrange(j, j + max_gap + 1));
                        assert(unknown_count(flags, block.subrange(j, j + max_gap + 1)) > 0);
                    } else if j <= bl - 1 {
                        // the window covers the old block's last line,
                        // which is unknown
                        assert(w[bl - 1 - j] == nb[bl - 1]);
                        assert(nb[bl - 1] == block[bl - 1]);
                        assert(flags[block.last()]);
                        lemma_count_pos(flags, w, bl - 1 - j);
                    } else {
                        // the window lies inside pending plus the new
                        // unknown line, so it must cover that line
                        assert(j + max_gap + 1 <= bl + pl + 1);
                        assert(pl <= max_gap);
                        assert(j + max_gap + 1 == nb.len());
                        assert(w[max_gap] == nb[j + max_gap]);
                        assert(nb[j + max_gap] == i);
                        lemma_count_pos(flags, w, max_gap);
                    }
                }
            }
            lemma_scan_gap_bounded(max_gap, min_len, flags, i + 1, nb, unknowns + 1, Seq::empty(), acc);
            assert(scan(max_gap, min_len, flags, i, block, unknowns, pending, acc)
                == scan(max_gap, min_len, flags, i + 1, nb, unknowns + 1, Seq::empty(), acc));
        }
    } else {
        if block.len() == 0 {
            lemma_scan_gap_bounded(max_gap, min_len, flags, i + 1, block, unknowns, pending, acc);
            assert(scan(max_gap, min_len, flags, i, block, unknowns, pending, acc)
                == scan(max_gap, min_len, flags, i + 1, block, unknowns, pending, acc));
        } else if pending.len() + 1 > max_gap {
            if unknowns >= min_len {
                let nacc = acc.push(block);
                assert(forall|k: int| 0 <= k < nacc.len() ==> contiguous(#[trigger] nacc[k]));
                assert(forall|k: int|
                    0 <= k < nacc.len() ==> gaps_bounded(flags, #[trigger] nacc[k], max_gap));
                lemma_scan_gap_bounded(max_gap, min_len, flags, i + 1, Seq::empty(), 0, Seq::empty(), nacc);
                assert(scan(max_gap, min_len, flags, i, block, unknowns, pending, acc)
                    == scan(max_gap, min_len, flags, i + 1, Seq::empty(), 0, Seq::empty(), nacc));
            } else {
                lemma_scan_gap_bounded(max_gap, min_len, flags, i + 1, Seq::empty(), 0, Seq::empty(), acc);
                assert(scan(max_gap, min_len, flags, i, block, unknowns, pending, acc)
                    == scan(max_gap, min_len, flags, i + 1, Seq::empty(), 0, Seq::empty(), acc));
            }
        } else {
            let np = pending.push(i);
            assert(contiguous(np)) by {
                assert forall|j: int| 0 <= j < np.len() implies #[trigger] np[j] == np.first()
                    + j by {
                    if j < pending.len() {
                        assert(np[j] == pending[j]);
                    } else {
                        assert(np[j] == i);
                        if pending.len() > 0 {
                            assert(pending.last() == pending.first() + (pending.len() - 1));
                        }
                    }
                }
            }
            if pending.len() == 0 {
                assert(np.first() == i);
            } else {
                assert(np.first() == pending.first());
            }
            assert(np.last() == i);
            lemma_scan_gap_bounded(max_gap, min_len, flags, i + 1, block, unknowns, np, acc);
            assert(scan(max_gap, min_len, flags, i, block, unknowns, pending, acc)
                == scan(max_gap, min_len, flags, i + 1, block, unknowns, np, acc));
        }
    }
}

/// The gap law of extraction, for any non-negative `max_gap`: every
/// reported block is a contiguous run of the log's lines, and inside a
/// block the recognized lines come in runs of at most `max_gap` -- every
/// window of `max_gap + 1` consecutive block lines holds an unknown
/// line.
pub proof fn lemma_extract_gap_bounded(max_gap: int, min_len: int, flags: Seq<bool>)
    requires
        max_gap >= 0,
    ensures
        ({
            let bs = spec_extract(max_gap, min_len, flags);
            &&& forall|k: int| 0 <= k < bs.len() ==> contiguous(#[trigger] bs[k])
            &&& forall|k: int| 0 <= k < bs.len() ==> gaps_bounded(flags, #[trigger] bs[k], max_gap)
        }),
{
    lemma_scan_gap_bounded(max_gap, min_len, flags, 0, Seq::empty(), 0, Seq::empty(), Seq::empty());
}

/// The structural laws of extraction. For any log and any configuration:
/// every reported block is non-empty, lies inside the log, and keeps the
/// source log's line order; blocks themselves appear in source order and
/// do not overlap; every block begins and ends with an unknown line, so a
/// recognized line -- and in particular a blank line, which is always
/// recognized -- never starts or ends a block; and every block holds at
/// least `min_len` unknown lines, a count to which recognized (and so
/// blank) lines never contribute.
pub proof fn lemma_extract_structure(max_gap: int, min_len: int, flags: Seq<bool>)
    ensures
        ({
            let bs = spec_extract(max_gap, min_len, flags);
            &&& forall|k: int| 0 <= k < bs.len() ==> block_well_formed(flags, #[trigger] bs[k])
            &&& forall|k: int| 0 <= k < bs.len() ==> unknown_count(flags, #[trigger] bs[k]) >= min_len
            &&& forall|k: int| 0 <= k < bs.len() - 1 ==> (#[trigger] bs[k]).last() < bs[k + 1].first()
        }),
{
    lemma_scan_ordered(max_gap, min_len, flags, 0, Seq::empty(), 0, Seq::empty(), Seq::empty());
}

/// A blank line sanitizes to the empty byte sequence and is never
/// unknown, whatever the index holds: it cannot open, close or lengthen
/// the unknown count of any block.
pub proof fn lemma_blank_line_is_known(contents: Set<Seq<u8>>)
    ensures
        !is_unknown(contents, Seq::<u8>::empty()),
{
}

/// The same, read off the flags of a concrete line sequence: the flag of
/// a blank line is always "recognized".
pub proof fn lemma_blank_flag(contents: Set<Seq<u8>>, lines: Seq<Line>, k: int)
    requires
        0 <= k < lines.len(),
        lines[k].sanitized@.len() == 0,
    ensures
        !spec_flags(contents, lines)[k],
{
}

/// Split a raw log into lines and pair each with its canonical form:
/// the records on which classification and block assembly run. Each
/// canonical form is free of control bytes and of edge whitespace.
#[verifier::loop_isolation(false)]
pub fn load_lines(ctx: &NoiseContext, log: &[u8]) -> (lines: Vec<Line>)
    requires
        ctx.wf(),
    ensures
        lines@.len() == spec_split_lines(log@).len(),
        forall|k: int|
            0 <= k < lines@.len() ==> (#[trigger] lines@[k]).original@ == spec_split_lines(log@)[k]
                && lines@[k].sanitized@ == spec_clean(
                ctx.patterns(),
                ctx.placeholder_view(),
                spec_split_lines(log@)[k],
            ),
        forall|k: int|
            0 <= k < lines@.len() ==> all_plain((#[trigger] lines@[k]).sanitized@) && is_trimmed(
                lines@[k].sanitized@,
            ),
{
    let raw = split_lines(log);
    let mut lines: Vec<Line> = Vec::new();
    let mut k: usize = 0;
    while k < raw.len()
        invariant
            0 <= k <= raw@.len(),
            lines@.len() == k,
            lines_view(raw@) == spec_split_lines(log@),
            forall|j: int|
                0 <= j < lines@.len() ==> (#[trigger] lines@[j]).original@ == spec_split_lines(
                    log@,
                )[j] && lines@[j].sanitized@ == spec_clean(
                    ctx.patterns(),
                    ctx.placeholder_view(),
                    spec_split_lines(log@)[j],
                ),
            forall|j: int|
                0 <= j < lines@.len() ==> all_plain((#[trigger] lines@[j]).sanitized@)
                    && is_trimmed(lines@[j].sanitized@),
        decreases raw@.len() - k,
    {
        assert(raw@[k as int]@ == lines_view(raw@)[k as int]);
        let sanitized = ctx.clean(raw[k].as_slice());
        let mut original: Vec<u8> = Vec::new();
        push_range(&mut original, raw[k].as_slice(), 0, raw[k].len());
        assert(original@ =~= raw@[k as int]@);
        lines.push(Line { original, sanitized });
        k = k + 1;
    }
    lines
}

/// One rendered block: each line's canonical bytes, each followed by a
/// line feed.
pub open spec fn spec_render_block(lines: Seq<Line>, b: Seq<int>) -> Seq<u8>
    decreases b.len(),
{
    if b.len() == 0 {
        Seq::empty()
    } else {
        lines[b.first()].sanitized@ + seq![10u8] + spec_render_block(lines, b.drop_first())
    }
}

/// The fixed delimiter line between rendered blocks.
pub open spec fn spec_delim() -> Seq<u8> {
    seq![45u8, 45u8, 45u8, 10u8]
}

/// The second and later rendered blocks, each preceded by the delimiter.
pub open spec fn spec_render_rest(lines: Seq<Line>, bs: Seq<Seq<int>>) -> Seq<u8>
    decreases bs.len(),
{
    if bs.len() == 0 {
        Seq::empty()
    } else {
        spec_delim() + spec_render_block(lines, bs.first()) + spec_render_rest(
            lines,
            bs.drop_first(),
        )
    }
}

/// The textual rendering of the extracted blocks: lines within a block
/// separated by line feeds, blocks separated by the fixed delimiter line.
pub open spec fn spec_render(lines: Seq<Line>, bs: Seq<Seq<int>>) -> Seq<u8> {
    if bs.len() == 0 {
        Seq::empty()
    } else {
        spec_render_block(lines, bs.first()) + spec_render_rest(lines, bs.drop_first())
    }
}

/// Every index of every block lies in `[0, n)`.
pub open spec fn blocks_in_range(bs: Seq<Seq<int>>, n: int) -> bool {
    forall|k: int| 0 <= k < bs.len() ==> within(#[trigger] bs[k], n)
}

/// Render one block's lines into `out`.
#[verifier::loop_isolation(false)]
fn render_one_block(out: &mut Vec<u8>, lines: &Vec<Line>, b: &Vec<usize>)
    requires
        within(view_block(*b), lines@.len() as int),
    ensures
        final(out)@ == old(out)@ + spec_render_block(lines@, view_block(*b)),
{
    let ghost vb = view_block(*b);
    let mut j: usize = 0;
    proof {
        assert(vb.skip(0) =~= vb);
        assert(old(out)@ + spec_render_block(lines@, vb) =~= old(out)@ + spec_render_block(
            lines@,
            vb.skip(0),
        ));
    }
    while j < b.len()
        invariant
            0 <= j <= b@.len(),
            within(vb, lines@.len() as int),
            vb == view_block(*b),
            old(out)@ + spec_render_block(lines@, vb) == out@ + spec_render_block(
                lines@,
                vb.skip(j as int),
            ),
        decreases b@.len() - j,
    {
        let ghost tail = vb.skip(j as int);
        proof {
            assert(tail.first() == vb[j as int]);
            assert(vb[j as int] == b@[j as int] as int);
            assert(tail.drop_first() =~= vb.skip(j as int + 1));
        }
        let idx = b[j];
        let ghost mid = out@;
        push_range(out, lines[idx].sanitized.as_slice(), 0, lines[idx].sanitized.len());
        out.push(10u8);
        proof {
            assert(lines@[idx as int].sanitized@.subrange(
                0,
                lines@[idx as int].sanitized@.len() as int,
            ) =~= lines@[idx as int].sanitized@);
            assert(out@ =~= mid + (lines@[idx as int].sanitized@ + seq![10u8]));
            assert(mid + (lines@[idx as int].sanitized@ + seq![10u8]) + spec_render_block(
                lines@,
                tail.drop_first(),
            ) =~= mid + (lines@[idx as int].sanitized@ + seq![10u8] + spec_render_block(
                lines@,
                tail.drop_first(),
            )));
        }
        j = j + 1;
    }
    proof {
        assert(vb.skip(j as int).len() == 0);
        assert(spec_render_block(lines@, vb.skip(j as int)) == Seq::<u8>::empty());
        assert(out@ + Seq::<u8>::empty() =~= out@);
        assert(old(out)@ + spec_render_block(lines@, vb) + Seq::<u8>::empty() =~= old(out)@
            + spec_render_block(lines@, vb));
    }
}

/// Render the extracted blocks for display: this is the one rendering
/// contract downstream consumers rely on.
#[verifier::loop_isolation(false)]
pub fn render_blocks(lines: &Vec<Line>, blocks: &Vec<Vec<usize>>) -> (out: Vec<u8>)
    requires
        blocks_in_range(view_blocks(blocks@), lines@.len() as int),
    ensures
        out@ == spec_render(lines@, view_blocks(blocks@)),
{
    let ghost all = view_blocks(blocks@);
    let mut out: Vec<u8> = Vec::new();
    if blocks.len() == 0 {
        return out;
    }
    proof {
        assert(all[0] == view_block(blocks@[0]));
        assert(within(all[0], lines@.len() as int));
    }
    render_one_block(&mut out, lines, &blocks[0]);
    assert(out@ =~= spec_render_block(lines@, all[0]));
    let mut k: usize = 1;
    proof {
        assert(all.first() == all[0]);
        assert(all.drop_first() =~= all.skip(1));
        assert(spec_render(lines@, all) == spec_render_block(lines@, all[0]) + spec_render_rest(
            lines@,
            all.skip(1),
        ));
    }
    while k < blocks.len()
        invariant
            1 <= k <= blocks@.len(),
            all == view_blocks(blocks@),
            blocks_in_range(all, lines@.len() as int),
            spec_render(lines@, all) == out@ + spec_render_rest(lines@, all.skip(k as int)),
        decreases blocks@.len() - k,
    {
        let ghost tail = all.skip(k as int);
        proof {
            assert(tail.first() == all[k as int]);
            assert(all[k as int] == view_block(blocks@[k as int]));
            assert(tail.drop_first() =~= all.skip(k as int + 1));
            assert(within(all[k as int], lines@.len() as int));
        }
        let ghost pre = out@;
        out.push(45u8);
        out.push(45u8);
        out.push(45u8);
        out.push(10u8);
        let ghost mid = out@;
        proof {
            assert(mid =~= pre + spec_delim());
        }
        render_one_block(&mut out, lines, &blocks[k]);
        proof {
            assert(out@ == mid + spec_render_block(lines@, tail.first()));
            assert(out@ + spec_render_rest(lines@, tail.drop_first()) =~= pre + (spec_delim()
                + spec_render_block(lines@, tail.first()) + spec_render_rest(
                lines@,
                tail.drop_first(),
            )));
        }
        k = k + 1;
    }
    proof {
        assert(all.skip(k as int).len() == 0);
        assert(spec_render_rest(lines@, all.skip(k as int)) == Seq::<u8>::empty());
        assert(out@ + Seq::<u8>::empty() =~= out@);
    }
    out
}

/// Extraction is deterministic: two results of the same configuration,
/// index contents and lines are equal, since each equals the one spec
/// value.
pub proof fn lemma_extract_deterministic(
    max_gap: int,
    min_len: int,
    flags: Seq<bool>,
    r1: Seq<Seq<int>>,
    r2: Seq<Seq<int>>,
)
    requires
        r1 == spec_extract(max_gap, min_len, flags),
        r2 == spec_extract(max_gap, min_len, flags),
    ensures
        r1 == r2,
{
}

} // verus!
