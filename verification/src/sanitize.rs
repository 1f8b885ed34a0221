//! The sanitizer: normalize raw log bytes into a canonical, noise-free
//! form, so that semantically identical lines from different runs compare
//! equal.
//!
//! A raw log is first split into lines on line feeds. Each line is then
//! cleaned in three steps: ANSI escape sequences and other control bytes
//! are deleted; occurrences of the provider's literal noise patterns are
//! replaced by a stable placeholder, found in one pass of a multi-pattern
//! automaton; and edge whitespace is trimmed, while internal whitespace
//! runs are preserved.

use vstd::prelude::*;

verus! {

/// Whitespace that trimming removes at the edges of a line. Internal
/// runs are kept: collapsing them would hide real formatting differences.
pub open spec fn is_ws(b: u8) -> bool {
    b == 0x20 || b == 0x09
}

/// A byte that survives control stripping: printable bytes, tab, space
/// and carriage return stay; the rest of the ASCII control range, DEL
/// and ESC go. A bare carriage return is an ordinary byte here: some
/// consoles redraw progress with it, and deleting it would silently
/// merge that content with what follows.
pub open spec fn is_plain(b: u8) -> bool {
    (b >= 0x20 || b == 0x09 || b == 0x0d) && b != 0x7f
}

/// Every byte of the sequence is plain.
pub open spec fn all_plain(s: Seq<u8>) -> bool {
    forall|k: int| 0 <= k < s.len() ==> is_plain(#[trigger] s[k])
}

/// Control stripping as a two-state scan: outside an escape sequence
/// (`in_csi` false) a plain byte is kept, the opener `ESC [` enters the
/// sequence, and any other control byte is dropped; inside the sequence
/// every byte up to and including the final byte (`0x40..=0x7e`) is
/// dropped.
pub open spec fn spec_strip_st(s: Seq<u8>, in_csi: bool) -> Seq<u8>
    decreases s.len(),
{
    if s.len() == 0 {
        Seq::empty()
    } else if in_csi {
        if 0x40 <= s.first() <= 0x7e {
            spec_strip_st(s.drop_first(), false)
        } else {
            spec_strip_st(s.drop_first(), true)
        }
    } else if s.first() == 0x1b && s.len() >= 2 && s[1] == 0x5b {
        spec_strip_st(s.skip(2), true)
    } else if is_plain(s.first()) {
        seq![s.first()] + spec_strip_st(s.drop_first(), false)
    } else {
        spec_strip_st(s.drop_first(), false)
    }
}

/// Control stripping of one line.
pub open spec fn spec_strip(s: Seq<u8>) -> Seq<u8> {
    spec_strip_st(s, false)
}

/// Stripping only ever emits plain bytes.
pub proof fn lemma_strip_output_plain(s: Seq<u8>, in_csi: bool)
    ensures
        all_plain(spec_strip_st(s, in_csi)),
    decreases s.len(),
{
    if s.len() == 0 {
    } else if in_csi {
        if 0x40 <= s.first() <= 0x7e {
            lemma_strip_output_plain(s.drop_first(), false);
        } else {
            lemma_strip_output_plain(s.drop_first(), true);
        }
    } else if s.first() == 0x1b && s.len() >= 2 && s[1] == 0x5b {
        lemma_strip_output_plain(s.skip(2), true);
    } else if is_plain(s.first()) {
        lemma_strip_output_plain(s.drop_first(), false);
        let t = seq![s.first()] + spec_strip_st(s.drop_first(), false);
        assert(spec_strip_st(s, false) == t);
        assert forall|k: int| 0 <= k < t.len() implies is_plain(#[trigger] t[k]) by {
            if k > 0 {
                assert(t[k] == spec_strip_st(s.drop_first(), false)[k - 1]);
            } else {
                assert(t[0] == s.first());
            }
        }
    } else {
        lemma_strip_output_plain(s.drop_first(), false);
    }
}

/// Stripping a sequence of plain bytes changes nothing.
pub proof fn lemma_strip_plain_identity(s: Seq<u8>)
    requires
        all_plain(s),
    ensures
        spec_strip(s) == s,
    decreases s.len(),
{
    if s.len() == 0 {
        assert(spec_strip(s) =~= s);
    } else {
        assert(is_plain(s.first()));
        lemma_strip_plain_identity(s.drop_first());
        assert(seq![s.first()] + s.drop_first() =~= s);
    }
}

/// Leading whitespace removed.
pub open spec fn spec_trim_front(s: Seq<u8>) -> Seq<u8>
    decreases s.len(),
{
    if s.len() > 0 && is_ws(s.first()) {
        spec_trim_front(s.drop_first())
    } else {
        s
    }
}

/// Trailing whitespace removed.
pub open spec fn spec_trim_back(s: Seq<u8>) -> Seq<u8>
    decreases s.len(),
{
    if s.len() > 0 && is_ws(s.last()) {
        spec_trim_back(s.drop_last())
    } else {
        s
    }
}

/// Edge whitespace removed from both ends.
pub open spec fn spec_trim(s: Seq<u8>) -> Seq<u8> {
    spec_trim_back(spec_trim_front(s))
}

/// No whitespace is left at either edge of a trimmed sequence.
pub open spec fn is_trimmed(s: Seq<u8>) -> bool {
    s.len() > 0 ==> !is_ws(s.first()) && !is_ws(s.last())
}

proof fn lemma_trim_front_props(s: Seq<u8>)
    ensures
        spec_trim_front(s).len() > 0 ==> !is_ws(spec_trim_front(s).first()),
        all_plain(s) ==> all_plain(spec_trim_front(s)),
    decreases s.len(),
{
    if s.len() > 0 && is_ws(s.first()) {
        lemma_trim_front_props(s.drop_first());
        if all_plain(s) {
            assert forall|k: int| 0 <= k < s.drop_first().len() implies is_plain(
                #[trigger] s.drop_first()[k],
            ) by {
                assert(s.drop_first()[k] == s[k + 1]);
            }
        }
    }
}

proof fn lemma_trim_back_props(s: Seq<u8>)
    ensures
        spec_trim_back(s).len() > 0 ==> !is_ws(spec_trim_back(s).last()),
        spec_trim_back(s).len() > 0 && !is_ws(s.first()) && s.len() > 0 ==> !is_ws(
            spec_trim_back(s).first(),
        ),
        all_plain(s) ==> all_plain(spec_trim_back(s)),
    decreases s.len(),
{
    if s.len() > 0 && is_ws(s.last()) {
        lemma_trim_back_props(s.drop_last());
        if spec_trim_back(s).len() > 0 && s.drop_last().len() > 0 {
            assert(s.drop_last().first() == s.first());
        }
        if all_plain(s) {
            assert forall|k: int| 0 <= k < s.drop_last().len() implies is_plain(
                #[trigger] s.drop_last()[k],
            ) by {
                assert(s.drop_last()[k] == s[k]);
            }
        }
    }
}

/// A trimmed line stays trimmed and plain.
pub proof fn lemma_trim_props(s: Seq<u8>)
    ensures
        is_trimmed(spec_trim(s)),
        all_plain(s) ==> all_plain(spec_trim(s)),
{
    lemma_trim_front_props(s);
    lemma_trim_back_props(spec_trim_front(s));
}

/// Trimming an already trimmed line changes nothing.
pub proof fn lemma_trim_of_trimmed(s: Seq<u8>)
    requires
        is_trimmed(s),
    ensures
        spec_trim(s) == s,
{
}

/// Delete ANSI escape sequences and other control bytes from one line.
#[verifier::loop_isolation(false)]
pub fn strip_line(line: &[u8]) -> (r: Vec<u8>)
    ensures
        r@ == spec_strip(line@),
{
    let mut out: Vec<u8> = Vec::new();
    let mut in_csi = false;
    let mut i: usize = 0;
    proof {
        assert(line@.skip(0) =~= line@);
        assert(out@ + spec_strip_st(line@, false) =~= spec_strip_st(line@, false));
    }
    while i < line.len()
        invariant
            0 <= i <= line@.len(),
            spec_strip(line@) == out@ + spec_strip_st(line@.skip(i as int), in_csi),
        decreases line@.len() - i,
    {
        let ghost tail = line@.skip(i as int);
        proof {
            assert(tail.first() == line@[i as int]);
            assert(tail.drop_first() =~= line@.skip(i as int + 1));
        }
        let b = line[i];
        if in_csi {
            if 0x40 <= b && b <= 0x7e {
                in_csi = false;
            }
            i = i + 1;
        } else if b == 0x1b && i + 1 < line.len() && line[i + 1] == 0x5b {
            proof {
                assert(tail[1] == line@[i as int + 1]);
                assert(tail.skip(2) =~= line@.skip(i as int + 2));
            }
            in_csi = true;
            i = i + 2;
        } else if (b >= 0x20 || b == 0x09 || b == 0x0d) && b != 0x7f {
            proof {
                assert(out@.push(b) + spec_strip_st(tail.drop_first(), false) =~= out@ + (seq![b]
                    + spec_strip_st(tail.drop_first(), false)));
            }
            out.push(b);
            i = i + 1;
        } else {
            i = i + 1;
        }
    }
    proof {
        assert(line@.skip(i as int).len() == 0);
        assert(spec_strip_st(line@.skip(i as int), in_csi) == Seq::<u8>::empty());
        assert(out@ + Seq::<u8>::empty() =~= out@);
    }
    out
}

/// Copy `bytes[lo..hi]` into an owned vector.
#[verifier::loop_isolation(false)]
fn copy_range(bytes: &[u8], lo: usize, hi: usize) -> (r: Vec<u8>)
    requires
        lo <= hi <= bytes@.len(),
    ensures
        r@ == bytes@.subrange(lo as int, hi as int),
{
    let mut r: Vec<u8> = Vec::new();
    let mut j: usize = lo;
    while j < hi
        invariant
            lo <= j <= hi,
            r@ == bytes@.subrange(lo as int, j as int),
        decreases hi - j,
    {
        r.push(bytes[j]);
        assert(r@ =~= bytes@.subrange(lo as int, j as int + 1));
        j = j + 1;
    }
    r
}

/// Remove edge whitespace, keeping internal whitespace runs as they are.
#[verifier::loop_isolation(false)]
pub fn trim_line(line: &[u8]) -> (r: Vec<u8>)
    ensures
        r@ == spec_trim(line@),
{
    let mut lo: usize = 0;
    proof {
        assert(line@.skip(0) =~= line@);
    }
    while lo < line.len() && (line[lo] == 0x20 || line[lo] == 0x09)
        invariant
            0 <= lo <= line@.len(),
            spec_trim_front(line@) == spec_trim_front(line@.skip(lo as int)),
        decreases line@.len() - lo,
    {
        proof {
            let tail = line@.skip(lo as int);
            assert(tail.first() == line@[lo as int]);
            assert(tail.drop_first() =~= line@.skip(lo as int + 1));
        }
        lo = lo + 1;
    }
    proof {
        let tail = line@.skip(lo as int);
        if tail.len() > 0 {
            assert(tail.first() == line@[lo as int]);
        }
        assert(spec_trim_front(line@) == tail);
        assert(tail =~= line@.subrange(lo as int, line@.len() as int));
    }
    let mut hi: usize = line.len();
    while hi > lo && (line[hi - 1] == 0x20 || line[hi - 1] == 0x09)
        invariant
            lo <= hi <= line@.len(),
            spec_trim_back(line@.subrange(lo as int, line@.len() as int)) == spec_trim_back(
                line@.subrange(lo as int, hi as int),
            ),
        decreases hi,
    {
        proof {
            let part = line@.subrange(lo as int, hi as int);
            assert(part.last() == line@[hi as int - 1]);
            assert(part.drop_last() =~= line@.subrange(lo as int, hi as int - 1));
        }
        hi = hi - 1;
    }
    proof {
        let part = line@.subrange(lo as int, hi as int);
        if part.len() > 0 {
            assert(part.last() == line@[hi as int - 1]);
        }
        assert(spec_trim_back(part) == part);
    }
    copy_range(line, lo, hi)
}

/// How a raw log falls into lines: split on line feeds, strip a carriage
/// return immediately before each line feed, and keep a trailing
/// unterminated fragment as a line of its own. Carriage returns anywhere
/// else are ordinary bytes.
pub open spec fn split_scan(s: Seq<u8>, i: int, cur: Seq<u8>, acc: Seq<Seq<u8>>) -> Seq<Seq<u8>>
    decreases s.len() - i,
    when 0 <= i
{
    if i >= s.len() {
        if cur.len() > 0 {
            acc.push(cur)
        } else {
            acc
        }
    } else if s[i] == 0x0a {
        let cl = if cur.len() > 0 && cur.last() == 0x0d {
            cur.drop_last()
        } else {
            cur
        };
        split_scan(s, i + 1, Seq::empty(), acc.push(cl))
    } else {
        split_scan(s, i + 1, cur.push(s[i]), acc)
    }
}

/// The lines of a raw log.
pub open spec fn spec_split_lines(s: Seq<u8>) -> Seq<Seq<u8>> {
    split_scan(s, 0, Seq::empty(), Seq::empty())
}

/// The byte sequences of a vector of byte vectors.
pub open spec fn lines_view(s: Seq<Vec<u8>>) -> Seq<Seq<u8>> {
    s.map_values(|v: Vec<u8>| v@)
}

/// Split a raw log into its lines, as [`spec_split_lines`] describes.
#[verifier::loop_isolation(false)]
pub fn split_lines(log: &[u8]) -> (r: Vec<Vec<u8>>)
    ensures
        lines_view(r@) == spec_split_lines(log@),
{
    let mut acc: Vec<Vec<u8>> = Vec::new();
    let mut cur: Vec<u8> = Vec::new();
    let mut i: usize = 0;
    proof {
        assert(cur@ =~= Seq::<u8>::empty());
        assert(lines_view(acc@) =~= Seq::<Seq<u8>>::empty());
    }
    while i < log.len()
        invariant
            0 <= i <= log@.len(),
            split_scan(log@, i as int, cur@, lines_view(acc@)) == spec_split_lines(log@),
        decreases log@.len() - i,
    {
        let b = log[i];
        if b == 0x0a {
            let ghost old_cur = cur@;
            let ghost old_acc = lines_view(acc@);
            if cur.len() > 0 && cur[cur.len() - 1] == 0x0d {
                cur.pop();
            }
            let ghost cl = cur@;
            acc.push(cur);
            cur = Vec::new();
            proof {
                assert(lines_view(acc@) =~= old_acc.push(cl));
                assert(cur@ =~= Seq::<u8>::empty());
                assert(split_scan(log@, i as int, old_cur, old_acc) == split_scan(
                    log@,
                    i as int + 1,
                    Seq::empty(),
                    old_acc.push(cl),
                ));
            }
        } else {
            cur.push(b);
        }
        i = i + 1;
    }
    if cur.len() > 0 {
        let ghost old_acc = lines_view(acc@);
        let ghost cl = cur@;
        acc.push(cur);
        proof {
            assert(lines_view(acc@) =~= old_acc.push(cl));
        }
    }
    acc
}

/// A byte the terminal-safe dump keeps: a line feed or anything that is
/// not an ASCII control byte.
pub open spec fn keeps_byte(b: u8) -> bool {
    b == 0x0a || !(b < 0x20 || b == 0x7f)
}

/// A raw log with every control byte other than the line feeds removed.
pub open spec fn spec_keep_printable(s: Seq<u8>) -> Seq<u8>
    decreases s.len(),
{
    if s.len() == 0 {
        Seq::empty()
    } else if keeps_byte(s.first()) {
        seq![s.first()] + spec_keep_printable(s.drop_first())
    } else {
        spec_keep_printable(s.drop_first())
    }
}

/// Drop every ASCII control byte of a whole log except its line feeds,
/// for a terminal-safe dump of the raw bytes.
#[verifier::loop_isolation(false)]
pub fn strip_control_bytes(data: &[u8]) -> (r: Vec<u8>)
    ensures
        r@ == spec_keep_printable(data@),
{
    let mut out: Vec<u8> = Vec::new();
    let mut i: usize = 0;
    proof {
        assert(data@.skip(0) =~= data@);
        assert(out@ + spec_keep_printable(data@) =~= spec_keep_printable(data@));
    }
    while i < data.len()
        invariant
            0 <= i <= data@.len(),
            spec_keep_printable(data@) == out@ + spec_keep_printable(data@.skip(i as int)),
        decreases data@.len() - i,
    {
        let ghost tail = data@.skip(i as int);
        proof {
            assert(tail.first() == data@[i as int]);
            assert(tail.drop_first() =~= data@.skip(i as int + 1));
        }
        let b = data[i];
        if b == 0x0a || !(b < 0x20 || b == 0x7f) {
            proof {
                assert(out@.push(b) + spec_keep_printable(tail.drop_first()) =~= out@ + (seq![b]
                    + spec_keep_printable(tail.drop_first())));
            }
            out.push(b);
        }
        i = i + 1;
    }
    proof {
        assert(data@.skip(i as int).len() == 0);
        assert(spec_keep_printable(data@.skip(i as int)) == Seq::<u8>::empty());
        assert(out@ + Seq::<u8>::empty() =~= out@);
    }
    out
}

/// Declares aho-corasick's automaton so that it can be held in the
/// provider context; it is opaque here, a sealed set of patterns.
#[verifier::external_type_specification]
#[verifier::external_body]
pub struct ExAhoCorasick(aho_corasick::AhoCorasick);

/// The literal patterns a multi-pattern automaton was built over.
pub uninterp spec fn ac_pattern_set(a: aho_corasick::AhoCorasick) -> Seq<Seq<u8>>;

/// The spans the automaton reports on a haystack: a fixed function of the
/// pattern set and the haystack bytes alone.
pub uninterp spec fn ac_spans(pats: Seq<Seq<u8>>, hay: Seq<u8>) -> Seq<(int, int)>;

/// `pat` occurs somewhere in `hay`.
pub open spec fn occurs(pat: Seq<u8>, hay: Seq<u8>) -> bool {
    exists|k: int|
        0 <= k && k + pat.len() <= hay.len() && #[trigger] hay.subrange(k, k + pat.len() as int)
            == pat
}

/// No pattern of the set occurs in `hay`.
pub open spec fn no_occurrence(pats: Seq<Seq<u8>>, hay: Seq<u8>) -> bool {
    forall|pi: int| 0 <= pi < pats.len() ==> !occurs(#[trigger] pats[pi], hay)
}

/// Match spans as pairs of mathematical integers.
pub open spec fn view_spans(s: Seq<(usize, usize)>) -> Seq<(int, int)> {
    s.map_values(|p: (usize, usize)| (p.0 as int, p.1 as int))
}

/// Spans that can be replaced in one left-to-right pass: each within the
/// line, none overlapping, in source order.
pub open spec fn spans_wf(spans: Seq<(int, int)>, len: int) -> bool {
    &&& forall|k: int|
        0 <= k < spans.len() ==> 0 <= (#[trigger] spans[k]).0 <= spans[k].1 <= len
    &&& forall|k: int| 0 <= k < spans.len() - 1 ==> (#[trigger] spans[k]).1 <= spans[k + 1].0
}

/// Whether the automaton over a pattern list can be built: construction
/// fails only when the pattern set exceeds aho-corasick's internal
/// limits, and with the fixed default configuration used here that is a
/// function of the patterns alone.
pub uninterp spec fn ac_ok(pats: Seq<Seq<u8>>) -> bool;

/// Relies on `aho_corasick::AhoCorasick::new`: builds an automaton over
/// exactly the given literal patterns, succeeding on a given pattern
/// list every time or never ([`ac_ok`]).
#[verifier::external_body]
fn ac_build(patterns: &Vec<Vec<u8>>) -> (r: Option<aho_corasick::AhoCorasick>)
    ensures
        r is Some <==> ac_ok(lines_view(patterns@)),
        r matches Some(a) ==> ac_pattern_set(a) == lines_view(patterns@),
{
    aho_corasick::AhoCorasick::new(patterns).ok()
}

/// Relies on `aho_corasick::AhoCorasick::find_iter`: it reports
/// non-overlapping matches in haystack order, every reported span is an
/// occurrence of one of the automaton's patterns, and it reports no match
/// only when no pattern occurs in the haystack at all. Which occurrences
/// are chosen is the crate's match semantics; the spans are a fixed
/// function of the pattern set and the haystack, named [`ac_spans`].
#[verifier::external_body]
fn ac_find(a: &aho_corasick::AhoCorasick, hay: &[u8]) -> (ms: Vec<(usize, usize)>)
    ensures
        view_spans(ms@) == ac_spans(ac_pattern_set(*a), hay@),
        spans_wf(view_spans(ms@), hay@.len() as int),
        forall|k: int|
            0 <= k < ms@.len() ==> exists|pi: int|
                0 <= pi < ac_pattern_set(*a).len() && hay@.subrange(
                    (#[trigger] view_spans(ms@)[k]).0,
                    view_spans(ms@)[k].1,
                ) == ac_pattern_set(*a)[pi],
        ms@.len() == 0 ==> no_occurrence(ac_pattern_set(*a), hay@),
{
    let mut v: Vec<(usize, usize)> = Vec::new();
    for m in a.find_iter(hay) {
        v.push((m.start(), m.end()));
    }
    v
}

/// The line with each span replaced by the placeholder, the rest copied
/// through, starting at `from`.
pub open spec fn spec_apply(line: Seq<u8>, spans: Seq<(int, int)>, ph: Seq<u8>, from: int) -> Seq<
    u8,
>
    decreases spans.len(),
{
    if spans.len() == 0 {
        line.subrange(from, line.len() as int)
    } else {
        line.subrange(from, spans.first().0) + ph + spec_apply(
            line,
            spans.drop_first(),
            ph,
            spans.first().1,
        )
    }
}

/// Append `bytes[lo..hi]` to `out`.
#[verifier::loop_isolation(false)]
pub(crate) fn push_range(out: &mut Vec<u8>, bytes: &[u8], lo: usize, hi: usize)
    requires
        lo <= hi <= bytes@.len(),
    ensures
        final(out)@ == old(out)@ + bytes@.subrange(lo as int, hi as int),
{
    let mut j: usize = lo;
    while j < hi
        invariant
            lo <= j <= hi,
            out@ == old(out)@ + bytes@.subrange(lo as int, j as int),
        decreases hi - j,
    {
        out.push(bytes[j]);
        assert(out@ =~= old(out)@ + bytes@.subrange(lo as int, j as int + 1));
        j = j + 1;
    }
    assert(out@ =~= old(out)@ + bytes@.subrange(lo as int, hi as int));
}

/// Replace each span of the line by the placeholder.
#[verifier::loop_isolation(false)]
fn apply_spans(line: &[u8], spans: &Vec<(usize, usize)>, ph: &[u8]) -> (r: Vec<u8>)
    requires
        spans_wf(view_spans(spans@), line@.len() as int),
    ensures
        r@ == spec_apply(line@, view_spans(spans@), ph@, 0),
{
    let ghost all = view_spans(spans@);
    let mut out: Vec<u8> = Vec::new();
    let mut from: usize = 0;
    let mut k: usize = 0;
    proof {
        assert(all.skip(0) =~= all);
        assert(out@ + spec_apply(line@, all, ph@, 0) =~= spec_apply(line@, all, ph@, 0));
    }
    while k < spans.len()
        invariant
            0 <= k <= spans@.len(),
            from <= line@.len(),
            k < spans@.len() ==> from <= all[k as int].0,
            spec_apply(line@, all, ph@, 0) == out@ + spec_apply(
                line@,
                all.skip(k as int),
                ph@,
                from as int,
            ),
        decreases spans@.len() - k,
    {
        let ghost tail = all.skip(k as int);
        proof {
            assert(tail.first() == all[k as int]);
            assert(all[k as int] == (spans@[k as int].0 as int, spans@[k as int].1 as int));
            assert(tail.drop_first() =~= all.skip(k as int + 1));
        }
        let (s, e) = spans[k];
        let ghost mid0 = out@;
        push_range(&mut out, line, from, s);
        let ghost mid1 = out@;
        push_range(&mut out, ph, 0, ph.len());
        proof {
            assert(ph@.subrange(0, ph@.len() as int) =~= ph@);
            assert(out@ =~= mid0 + (line@.subrange(from as int, s as int) + ph@));
            assert(spec_apply(line@, tail, ph@, from as int) == line@.subrange(
                from as int,
                s as int,
            ) + ph@ + spec_apply(line@, tail.drop_first(), ph@, e as int));
            assert(mid0 + (line@.subrange(from as int, s as int) + ph@) + spec_apply(
                line@,
                tail.drop_first(),
                ph@,
                e as int,
            ) =~= mid0 + (line@.subrange(from as int, s as int) + ph@ + spec_apply(
                line@,
                tail.drop_first(),
                ph@,
                e as int,
            )));
            if k + 1 < spans@.len() {
                assert(all[k as int].1 <= all[k as int + 1].0);
            }
        }
        from = e;
        k = k + 1;
    }
    proof {
        assert(all.skip(k as int).len() == 0);
        assert(spec_apply(line@, all.skip(k as int), ph@, from as int) == line@.subrange(
            from as int,
            line@.len() as int,
        ));
    }
    push_range(&mut out, line, from, line.len());
    out
}

proof fn lemma_apply_plain(line: Seq<u8>, spans: Seq<(int, int)>, ph: Seq<u8>, from: int)
    requires
        all_plain(line),
        all_plain(ph),
        spans_wf(spans, line.len() as int),
        0 <= from <= line.len(),
        spans.len() > 0 ==> from <= spans[0].0,
    ensures
        all_plain(spec_apply(line, spans, ph, from)),
    decreases spans.len(),
{
    if spans.len() == 0 {
        let t = line.subrange(from, line.len() as int);
        assert forall|k: int| 0 <= k < t.len() implies is_plain(#[trigger] t[k]) by {
            assert(t[k] == line[from + k]);
        }
    } else {
        let s0 = spans.first().0;
        let e0 = spans.first().1;
        assert(spans.drop_first() =~= spans.skip(1));
        assert forall|k: int| 0 <= k < spans.drop_first().len() implies (
        0 <= (#[trigger] spans.drop_first()[k]).0 <= spans.drop_first()[k].1 <= line.len()) by {
            assert(spans.drop_first()[k] == spans[k + 1]);
        }
        assert forall|k: int| 0 <= k < spans.drop_first().len() - 1 implies (
        #[trigger] spans.drop_first()[k]).1 <= spans.drop_first()[k + 1].0 by {
            assert(spans.drop_first()[k] == spans[k + 1]);
            assert(spans.drop_first()[k + 1] == spans[k + 2]);
        }
        if spans.drop_first().len() > 0 {
            assert(spans.drop_first()[0] == spans[1]);
            assert(spans[0].1 <= spans[1].0);
        }
        lemma_apply_plain(line, spans.drop_first(), ph, e0);
        let pre = line.subrange(from, s0);
        assert forall|k: int| 0 <= k < pre.len() implies is_plain(#[trigger] pre[k]) by {
            assert(pre[k] == line[from + k]);
        }
        let t = pre + ph + spec_apply(line, spans.drop_first(), ph, e0);
        assert forall|k: int| 0 <= k < t.len() implies is_plain(#[trigger] t[k]) by {
            if k < pre.len() {
                assert(t[k] == pre[k]);
            } else if k < pre.len() + ph.len() {
                assert(t[k] == ph[k - pre.len()]);
            } else {
                assert(t[k] == spec_apply(line, spans.drop_first(), ph, e0)[k - pre.len()
                    - ph.len()]);
            }
        }
    }
}

/// The canonical form of one line under a pattern set and placeholder:
/// control bytes stripped, each reported noise span replaced by the
/// placeholder, edge whitespace trimmed.
pub open spec fn spec_clean(pats: Seq<Seq<u8>>, ph: Seq<u8>, line: Seq<u8>) -> Seq<u8> {
    spec_trim(spec_apply(spec_strip(line), ac_spans(pats, spec_strip(line)), ph, 0))
}

/// The provider context: which noise patterns apply, and the placeholder
/// that stands in for matched variable content. Built once per provider
/// and reused across all lines of all logs.
pub struct NoiseContext {
    automaton: aho_corasick::AhoCorasick,
    placeholder: Vec<u8>,
}

impl NoiseContext {
    /// The literal noise patterns of this provider.
    pub closed spec fn patterns(self) -> Seq<Seq<u8>> {
        ac_pattern_set(self.automaton)
    }

    /// The placeholder that replaces each matched span.
    pub closed spec fn placeholder_view(self) -> Seq<u8> {
        self.placeholder@
    }

    /// A usable context keeps its placeholder free of control bytes, so
    /// that cleaning never reintroduces what stripping removed.
    pub open spec fn wf(self) -> bool {
        all_plain(self.placeholder_view())
    }

    /// Build the context for one provider. Succeeds exactly when the
    /// placeholder is free of control bytes and the automaton over the
    /// patterns builds.
    pub fn new(patterns: Vec<Vec<u8>>, placeholder: Vec<u8>) -> (r: Option<NoiseContext>)
        ensures
            r matches Some(ctx) ==> ctx.wf() && ctx.patterns() == lines_view(patterns@)
                && ctx.placeholder_view() == placeholder@,
            !all_plain(placeholder@) ==> r is None,
            all_plain(placeholder@) && ac_ok(lines_view(patterns@)) ==> r is Some,
    {
        let mut j: usize = 0;
        while j < placeholder.len()
            invariant
                0 <= j <= placeholder@.len(),
                forall|k: int| 0 <= k < j ==> is_plain(#[trigger] placeholder@[k]),
            decreases placeholder@.len() - j,
        {
            let b = placeholder[j];
            if !((b >= 0x20 || b == 0x09 || b == 0x0d) && b != 0x7f) {
                return None;
            }
            j = j + 1;
        }
        match ac_build(&patterns) {
            Some(a) => Some(NoiseContext { automaton: a, placeholder }),
            None => None,
        }
    }

    /// Clean one raw line into its canonical form, [`spec_clean`]: pure,
    /// never failing, defined on arbitrary bytes.
    ///
    /// The output carries the observable shape of a canonical line: no
    /// control byte survives and no edge whitespace is left. The spans
    /// the automaton reported on the stripped line are well formed, so
    /// the bytes outside them pass into the result unchanged and in
    /// order, as [`spec_apply`] spells out. Cleaning is moreover a fixed
    /// point wherever no noise pattern occurs in its own output (the
    /// last clause): the result is already stripped and trimmed, so when
    /// the automaton has nothing left to replace, cleaning it again
    /// gives it back unchanged.
    pub fn clean(&self, line: &[u8]) -> (r: Vec<u8>)
        requires
            self.wf(),
        ensures
            r@ == spec_clean(self.patterns(), self.placeholder_view(), line@),
            all_plain(r@),
            is_trimmed(r@),
            spans_wf(
                ac_spans(self.patterns(), spec_strip(line@)),
                spec_strip(line@).len() as int,
            ),
            ac_spans(self.patterns(), r@).len() == 0 ==> spec_clean(
                self.patterns(),
                self.placeholder_view(),
                r@,
            ) == r@,
    {
        let stripped = strip_line(line);
        let spans = ac_find(&self.automaton, stripped.as_slice());
        let replaced = apply_spans(stripped.as_slice(), &spans, self.placeholder.as_slice());
        let r = trim_line(replaced.as_slice());
        proof {
            lemma_strip_output_plain(line@, false);
            if view_spans(spans@).len() > 0 {
                assert(view_spans(spans@)[0].0 >= 0);
            }
            lemma_apply_plain(stripped@, view_spans(spans@), self.placeholder@, 0);
            lemma_trim_props(replaced@);
            if ac_spans(self.patterns(), r@).len() == 0 {
                lemma_strip_plain_identity(r@);
                assert(spec_apply(r@, ac_spans(self.patterns(), r@), self.placeholder@, 0)
                    == r@.subrange(0, r@.len() as int));
                assert(r@.subrange(0, r@.len() as int) =~= r@);
                lemma_trim_of_trimmed(r@);
            }
        }
        r
    }
}

} // verus!
