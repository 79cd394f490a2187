//! Sparse byte-offset line index.
//!
//! Only the start offset of every `sample`-th line is stored; any other line
//! is found by jumping to the nearest stored start and scanning forward.

use vstd::prelude::*;
use std::sync::atomic::{AtomicU64, Ordering};
use rayon::iter::{IntoParallelRefIterator, ParallelIterator};
use crate::bytes::{first_byte, NEWLINE};

verus! {

/// Number of lines between stored line starts.
pub const DEFAULT_SAMPLE: u64 = 4096;

// ---------------------------------------------------------------------------
// Mathematical model of lines in a byte sequence
// ---------------------------------------------------------------------------

/// Number of line feeds in `s[a..b)`.
pub open spec fn nl_in(s: Seq<u8>, a: int, b: int) -> nat
    decreases b - a,
{
    if b <= a {
        0
    } else {
        nl_in(s, a, b - 1) + if s[b - 1] == NEWLINE { 1nat } else { 0nat }
    }
}

/// Number of line feeds in `s`.
pub open spec fn newline_count(s: Seq<u8>) -> nat {
    nl_in(s, 0, s.len() as int)
}

/// `s` ends with bytes that no line feed terminates.
pub open spec fn has_unterminated_tail(s: Seq<u8>) -> bool {
    s.len() > 0 && s.last() != NEWLINE
}

/// Number of lines of `s`: one per line feed, plus one for an unterminated tail.
pub open spec fn line_count(s: Seq<u8>) -> nat {
    newline_count(s) + if has_unterminated_tail(s) { 1nat } else { 0nat }
}

/// Offset of the first line feed at or after `i`, or `s.len()` if there is none.
pub open spec fn next_newline(s: Seq<u8>, i: int) -> int
    decreases s.len() - i,
{
    if i >= s.len() {
        s.len() as int
    } else if s[i] == NEWLINE {
        i
    } else {
        next_newline(s, i + 1)
    }
}

/// Offset at which line `k` begins (line 0 begins at 0; line `k + 1` begins
/// just after the line feed that ends line `k`).
pub open spec fn line_start(s: Seq<u8>, k: nat) -> int
    decreases k,
{
    if k == 0 {
        0
    } else {
        next_newline(s, line_start(s, (k - 1) as nat)) + 1
    }
}

/// `p` is where line `k` begins: it is offset 0 or follows a line feed, and
/// exactly `k` line feeds come before it.
pub open spec fn is_line_start(s: Seq<u8>, p: int, k: nat) -> bool {
    &&& 0 <= p <= s.len()
    &&& (p == 0 || s[p - 1] == NEWLINE)
    &&& nl_in(s, 0, p) == k
}

/// `[start, end)` byte range of line `line` without its line feed, or
/// `(len, len)` when there is no such line.
pub open spec fn line_span(s: Seq<u8>, line: int) -> (int, int) {
    if line < 0 || line >= line_count(s) {
        (s.len() as int, s.len() as int)
    } else {
        let st = line_start(s, line as nat);
        (st, next_newline(s, st))
    }
}

/// Bytes of line `line`, with one trailing carriage return removed.
pub open spec fn line_text(s: Seq<u8>, line: int) -> Seq<u8> {
    let (a, b) = line_span(s, line);
    if a < b && s[b - 1] == 0x0du8 {
        s.subrange(a, b - 1)
    } else {
        s.subrange(a, b)
    }
}

/// Line that contains byte offset `offset` (clamped to the end of `s`), kept
/// within the last line.
pub open spec fn line_of_offset(s: Seq<u8>, offset: int) -> int {
    let o = if offset < s.len() { offset } else { s.len() as int };
    let last = if line_count(s) > 0 { line_count(s) - 1 } else { 0 };
    if nl_in(s, 0, o) < last {
        nl_in(s, 0, o) as int
    } else {
        last
    }
}

// ---------------------------------------------------------------------------
// Lemmas about the model
// ---------------------------------------------------------------------------

pub proof fn lemma_nl_in_split(s: Seq<u8>, a: int, m: int, b: int)
    requires
        a <= m <= b,
    ensures
        nl_in(s, a, b) == nl_in(s, a, m) + nl_in(s, m, b),
    decreases b - m,
{
    if b > m {
        lemma_nl_in_split(s, a, m, b - 1);
    }
}

pub proof fn lemma_nl_in_bound(s: Seq<u8>, a: int, b: int)
    requires
        a <= b,
    ensures
        nl_in(s, a, b) <= b - a,
    decreases b - a,
{
    if b > a {
        lemma_nl_in_bound(s, a, b - 1);
    }
}

pub proof fn lemma_nl_in_none(s: Seq<u8>, a: int, b: int)
    requires
        a <= b,
        forall|j: int| a <= j < b ==> s[j] != NEWLINE,
    ensures
        nl_in(s, a, b) == 0,
    decreases b - a,
{
    if b > a {
        lemma_nl_in_none(s, a, b - 1);
    }
}

pub proof fn lemma_nl_in_mono(s: Seq<u8>, a: int, p: int, q: int)
    requires
        a <= p <= q,
    ensures
        nl_in(s, a, p) <= nl_in(s, a, q),
{
    lemma_nl_in_split(s, a, p, q);
}

pub proof fn lemma_next_newline(s: Seq<u8>, i: int)
    requires
        0 <= i <= s.len(),
    ensures
        i <= next_newline(s, i) <= s.len(),
        next_newline(s, i) < s.len() ==> s[next_newline(s, i)] == NEWLINE,
        forall|j: int| i <= j < next_newline(s, i) ==> s[j] != NEWLINE,
    decreases s.len() - i,
{
    if i < s.len() && s[i] != NEWLINE {
        lemma_next_newline(s, i + 1);
    }
}

/// The first line feed at or after `i` is found by scanning `s[i..]`.
pub proof fn lemma_next_newline_found(s: Seq<u8>, i: int, r: int)
    requires
        0 <= i <= r < s.len(),
        s[r] == NEWLINE,
        forall|j: int| i <= j < r ==> s[j] != NEWLINE,
    ensures
        next_newline(s, i) == r,
{
    lemma_next_newline(s, i);
    if next_newline(s, i) < r {
        assert(s[next_newline(s, i)] == NEWLINE);
    }
}

pub proof fn lemma_next_newline_absent(s: Seq<u8>, i: int)
    requires
        0 <= i <= s.len(),
        forall|j: int| i <= j < s.len() ==> s[j] != NEWLINE,
    ensures
        next_newline(s, i) == s.len(),
{
    lemma_next_newline(s, i);
    if next_newline(s, i) < s.len() {
        assert(s[next_newline(s, i)] == NEWLINE);
    }
}

/// Line `k` exists for every `k` up to the number of line feeds.
pub proof fn lemma_line_start(s: Seq<u8>, k: nat)
    requires
        k <= newline_count(s),
    ensures
        is_line_start(s, line_start(s, k), k),
    decreases k,
{
    if k > 0 {
        let k1 = (k - 1) as nat;
        lemma_line_start(s, k1);
        let p = line_start(s, k1);
        lemma_next_newline(s, p);
        let r = next_newline(s, p);
        lemma_nl_in_none(s, p, r);
        lemma_nl_in_split(s, 0, p, r);
        if r == s.len() {
            assert(nl_in(s, 0, s.len() as int) == k1);
            assert(false);
        }
        assert(nl_in(s, 0, r + 1) == nl_in(s, 0, r) + 1);
    }
}

/// A line start that is not the last one is followed by a line feed.
pub proof fn lemma_line_start_not_last(s: Seq<u8>, k: nat)
    requires
        k < newline_count(s),
    ensures
        next_newline(s, line_start(s, k)) < s.len(),
{
    lemma_line_start(s, (k + 1) as nat);
    let p = line_start(s, k);
    lemma_line_start(s, k);
    lemma_next_newline(s, p);
}

/// Line starts of different lines are ordered like the lines.
pub proof fn lemma_line_start_order(s: Seq<u8>, p: int, k: nat, q: int, m: nat)
    requires
        is_line_start(s, p, k),
        is_line_start(s, q, m),
        k < m,
    ensures
        p < q,
{
    if q <= p {
        lemma_nl_in_mono(s, 0, q, p);
    }
}

/// Each line has exactly one start.
pub proof fn lemma_line_start_unique(s: Seq<u8>, p: int, q: int, k: nat)
    requires
        is_line_start(s, p, k),
        is_line_start(s, q, k),
    ensures
        p == q,
{
    if p < q {
        lemma_nl_in_mono(s, 0, p, q - 1);
        assert(nl_in(s, 0, q) == nl_in(s, 0, q - 1) + 1);
    } else if q < p {
        lemma_nl_in_mono(s, 0, q, p - 1);
        assert(nl_in(s, 0, p) == nl_in(s, 0, p - 1) + 1);
    }
}

/// The start of line `k` is the only offset with the line start property.
pub proof fn lemma_is_line_start_eq(s: Seq<u8>, p: int, k: nat)
    requires
        is_line_start(s, p, k),
    ensures
        k <= newline_count(s),
        p == line_start(s, k),
{
    lemma_nl_in_mono(s, 0, p, s.len() as int);
    lemma_line_start(s, k);
    lemma_line_start_unique(s, p, line_start(s, k), k);
}


/// Every line span lies within the bytes, its start before its end.
pub proof fn lemma_span_bounds(s: Seq<u8>, line: int)
    ensures
        0 <= line_span(s, line).0 <= line_span(s, line).1 <= s.len(),
{
    if 0 <= line < line_count(s) {
        lemma_nl_in_bound(s, 0, s.len() as int);
        lemma_line_start(s, line as nat);
        lemma_next_newline(s, line_start(s, line as nat));
    }
}

/// There are no more lines than bytes, and the line of any offset is one of them.
pub proof fn lemma_line_of_offset_bound(s: Seq<u8>, offset: int)
    ensures
        line_count(s) <= s.len(),
        0 <= line_of_offset(s, offset),
        line_count(s) > 0 ==> line_of_offset(s, offset) < line_count(s),
        line_count(s) == 0 ==> line_of_offset(s, offset) == 0,
{
    lemma_nl_in_bound(s, 0, s.len() as int);
    if has_unterminated_tail(s) {
        lemma_nl_in_bound(s, 0, s.len() - 1);
    }
}

// ---------------------------------------------------------------------------
// Splitting the bytes into chunks for parallel scanning
// ---------------------------------------------------------------------------

/// `b` cuts `[0, len)` into consecutive non-empty half-open ranges.
pub open spec fn tiles(b: Seq<(usize, usize)>, len: int) -> bool {
    &&& b.len() > 0
    &&& b[0].0 == 0
    &&& b.last().1 == len
    &&& forall|i: int| 0 <= i < b.len() ==> #[trigger] b[i].0 < b[i].1 <= len
    &&& forall|i: int, j: int| 0 <= i && j == i + 1 && j < b.len() ==> #[trigger] b[i].1 == #[trigger] b[j].0
}

proof fn lemma_chunk_mul(i: int, threads: int, len: int, chunk: int)
    requires
        0 <= i < threads,
        0 < len,
        chunk == if len / threads > 1 { len / threads } else { 1 },
    ensures
        0 <= i * chunk <= (i + 1) * chunk,
        (i + 1) * chunk <= if len >= threads { len } else { threads },
        len < threads ==> chunk == 1,
{
    assert(0 <= len / threads) by (nonlinear_arith)
        requires 0 < len, 0 <= i < threads;
    assert(i * chunk <= (i + 1) * chunk) by (nonlinear_arith)
        requires 0 <= i, chunk >= 1;
    assert(0 <= i * chunk) by (nonlinear_arith)
        requires 0 <= i, chunk >= 1;
    if len >= threads {
        assert(len / threads >= 1) by (nonlinear_arith)
            requires len >= threads, threads > 0;
        assert((i + 1) * (len / threads) <= threads * (len / threads)) by (nonlinear_arith)
            requires i + 1 <= threads, len / threads >= 0;
        assert(threads * (len / threads) <= len) by (nonlinear_arith)
            requires threads > 0, len >= 0;
    } else {
        assert(len / threads == 0) by (nonlinear_arith)
            requires 0 <= len < threads;
    }
}

/// Ranges built up to `covered == len` tile `[0, len)`.
proof fn lemma_tiles_complete(b: Seq<(usize, usize)>, len: int, covered: int)
    requires
        0 < len,
        covered == len,
        b.len() == 0 ==> covered == 0,
        b.len() > 0 ==> b[0].0 == 0 && b.last().1 == covered,
        forall|k: int| 0 <= k < b.len() ==> #[trigger] b[k].0 < b[k].1 <= covered,
        forall|k: int, j: int| 0 <= k && j == k + 1 && j < b.len() ==> #[trigger] b[k].1 == #[trigger] b[j].0,
    ensures
        tiles(b, len),
{
}

/// Cut `[0, len)` into `threads` ranges of `max(len / threads, 1)` bytes, the
/// last one running to the end, and drop the empty ones.
#[verifier::spinoff_prover]
fn chunk_bounds(len: usize, threads: usize) -> (bounds: Vec<(usize, usize)>)
    requires
        len > 0,
        threads >= 1,
    ensures
        tiles(bounds@, len as int),
{
    let chunk: usize = if len / threads > 1 { len / threads } else { 1 };
    let mut bounds: Vec<(usize, usize)> = Vec::new();
    let ghost mut covered: int = 0;
    let mut i: usize = 0;
    while i < threads
        invariant
            1 <= threads,
            0 < len,
            chunk == if len / threads > 1 { len / threads } else { 1 },
            i <= threads,
            i < threads ==> covered == if i * chunk < len { i * chunk } else { len as int },
            i == threads ==> covered == len,
            0 <= covered <= len,
            bounds@.len() == 0 ==> covered == 0,
            bounds@.len() > 0 ==> bounds@[0].0 == 0 && bounds@.last().1 == covered,
            forall|k: int| 0 <= k < bounds@.len() ==> #[trigger] bounds@[k].0 < bounds@[k].1 <= covered,
            forall|k: int, j: int| 0 <= k && j == k + 1 && j < bounds@.len() ==> #[trigger] bounds@[k].1 == #[trigger] bounds@[j].0,
        decreases threads - i,
    {
        proof {
            lemma_chunk_mul(i as int, threads as int, len as int, chunk as int);
        }
        let start: usize = if i * chunk < len { i * chunk } else { len };
        let end: usize = if i == threads - 1 {
            len
        } else if (i + 1) * chunk < len {
            (i + 1) * chunk
        } else {
            len
        };
        let ghost before = bounds@;
        proof {
            assert(start == covered);
            assert(covered <= end);
        }
        if start < end {
            bounds.push((start, end));
        }
        proof {
            assert forall|k: int| 0 <= k < bounds@.len() implies #[trigger] bounds@[k].0 < bounds@[k].1 <= end by {
                if k < before.len() {
                    assert(bounds@[k] == before[k]);
                    assert(before[k].0 < before[k].1 <= covered);
                }
            }
            assert forall|k: int, j: int| 0 <= k && j == k + 1 && j < bounds@.len() implies
                #[trigger] bounds@[k].1 == #[trigger] bounds@[j].0 by {
                if j < before.len() {
                    assert(bounds@[k] == before[k]);
                    assert(bounds@[j] == before[j]);
                } else {
                    assert(bounds@[k] == before.last());
                }
            }
            if before.len() > 0 {
                assert(bounds@[0] == before[0]);
            }
            covered = end as int;
        }
        i = i + 1;
    }
    proof {
        lemma_tiles_complete(bounds@, len as int, covered);
    }
    bounds
}

// ---------------------------------------------------------------------------
// Outside calls used while indexing
// ---------------------------------------------------------------------------

/// `rayon::current_num_threads`: the number of worker threads of the current
/// thread pool. It depends on the machine and on how the pool was built, so
/// nothing is stated of it.
#[verifier::external_body]
fn worker_threads() -> usize {
    rayon::current_num_threads()
}

/// `rayon`'s `par_iter().map(f).collect()` into a `Vec`: applies `f` to every
/// item, possibly on several threads, and collects the results in the order
/// of the items (collecting an indexed parallel iterator keeps its order).
#[verifier::external_body]
fn par_map<T: Sync, U: Send, F: Fn(&T) -> U + Sync + Send>(items: &Vec<T>, f: F) -> (out: Vec<U>)
    requires
        forall|i: int| 0 <= i < items.len() ==> #[trigger] f.requires((&items@[i],)),
    ensures
        out.len() == items.len(),
        forall|i: int| 0 <= i < items.len() ==> #[trigger] f.ensures((&items@[i],), out@[i]),
{
    items.par_iter().map(f).collect()
}

/// Add `n` scanned bytes to the shared progress counter.
fn report_progress(progress: &AtomicU64, n: u64) {
    progress.fetch_add(n, Ordering::Relaxed);
}

// ---------------------------------------------------------------------------
// Scanning one chunk
// ---------------------------------------------------------------------------

/// Count the line feeds in `data[s..e)` and report `e - s` scanned bytes.
fn count_newlines(data: &[u8], s: usize, e: usize, progress: &AtomicU64) -> (c: u64)
    requires
        s <= e <= data.len(),
    ensures
        c == nl_in(data@, s as int, e as int),
{
    let mut pos: usize = s;
    let mut c: u64 = 0;
    while pos < e
        invariant
            s <= pos <= e <= data.len(),
            c == nl_in(data@, s as int, pos as int),
        ensures
            c == nl_in(data@, s as int, e as int),
        decreases e - pos,
    {
        let hay = &data[pos..e];
        match first_byte(NEWLINE, hay) {
            Some(p) => {
                proof {
                    let q = pos + p;
                    assert forall|j: int| pos <= j < q implies data@[j] != NEWLINE by {
                        assert(hay@[j - pos] == data@[j]);
                    }
                    assert(hay@[p as int] == data@[q]);
                    lemma_nl_in_none(data@, pos as int, q);
                    lemma_nl_in_split(data@, s as int, pos as int, q);
                    lemma_nl_in_bound(data@, s as int, q + 1);
                }
                c = c + 1;
                pos = pos + p + 1;
            },
            None => {
                proof {
                    assert forall|j: int| pos <= j < e implies data@[j] != NEWLINE by {
                        assert(hay@[j - pos] == data@[j]);
                    }
                    lemma_nl_in_none(data@, pos as int, e as int);
                    lemma_nl_in_split(data@, s as int, pos as int, e as int);
                }
                break;
            },
        }
    }
    report_progress(progress, (e - s) as u64);
    c
}

/// Index in the stored line starts of the first start that lies in a chunk
/// beginning after `before` line feeds.
pub open spec fn first_slot(before: nat, sample: nat) -> nat {
    before / sample + 1
}

proof fn lemma_div_step(x: nat, d: nat)
    requires
        d > 0,
    ensures
        (x + 1) % d == 0 ==> (x + 1) / d == x / d + 1,
        (x + 1) % d != 0 ==> (x + 1) / d == x / d,
{
    let q = x / d;
    let r = x % d;
    vstd::arithmetic::div_mod::lemma_fundamental_div_mod(x as int, d as int);
    if r + 1 == d {
        assert((x + 1) as int == (q + 1) * (d as int) + 0) by (nonlinear_arith)
            requires x == d * q + r, r + 1 == d;
        vstd::arithmetic::div_mod::lemma_fundamental_div_mod_converse((x + 1) as int, d as int, (q + 1) as int, 0);
    } else {
        assert((x + 1) as int == q * (d as int) + (r + 1)) by (nonlinear_arith)
            requires x == d * q + r;
        vstd::arithmetic::div_mod::lemma_fundamental_div_mod_converse((x + 1) as int, d as int, q as int, (r + 1) as int);
    }
}

/// Number of line feeds in the byte range `b`.
pub open spec fn span_newlines(s: Seq<u8>, b: &(usize, usize)) -> nat {
    nl_in(s, b.0 as int, b.1 as int)
}

/// `t.2` is the number of line feeds before the range `[t.0, t.1)`.
pub open spec fn task_ready(s: Seq<u8>, t: &(usize, usize, u64)) -> bool {
    t.2 == nl_in(s, 0, t.0 as int)
}

/// `out` lists the starts of the lines numbered by a multiple of `sample`
/// that begin just after a line feed of the range `[t.0, t.1)`.
pub open spec fn chunk_starts(s: Seq<u8>, t: &(usize, usize, u64), sample: u64, out: Seq<u64>) -> bool {
    &&& out.len() == nl_in(s, 0, t.1 as int) as int / (sample as int) - nl_in(s, 0, t.0 as int) as int / (sample as int)
    &&& forall|j: int| 0 <= j < out.len() ==> is_line_start(s, #[trigger] out[j] as int,
        ((first_slot(nl_in(s, 0, t.0 as int), sample as nat) + j) * sample) as nat)
}

/// Start offsets of the lines numbered by a multiple of `sample` that begin
/// just after a line feed of `data[s..e)`; `base` is the number of line feeds
/// before `s`.
fn chunk_checkpoints(data: &[u8], s: usize, e: usize, base: u64, sample: u64) -> (out: Vec<u64>)
    requires
        s <= e <= data.len(),
        sample > 0,
        base == nl_in(data@, 0, s as int),
    ensures
        out.len() == nl_in(data@, 0, e as int) as int / (sample as int) - nl_in(data@, 0, s as int) as int / (sample as int),
        forall|j: int| 0 <= j < out.len() ==> is_line_start(data@, #[trigger] out@[j] as int,
            ((first_slot(nl_in(data@, 0, s as int), sample as nat) + j) * sample) as nat),
{
    let mut out: Vec<u64> = Vec::new();
    let mut pos: usize = s;
    let mut local: u64 = 0;
    proof {
        lemma_nl_in_bound(data@, 0, s as int);
    }
    while pos < e
        invariant
            s <= pos <= e <= data.len(),
            sample > 0,
            base == nl_in(data@, 0, s as int),
            base + local == nl_in(data@, 0, pos as int),
            out.len() == (base + local) as int / (sample as int) - base as int / (sample as int),
            forall|j: int| 0 <= j < out.len() ==> is_line_start(data@, #[trigger] out@[j] as int,
                ((first_slot(base as nat, sample as nat) + j) * sample) as nat),
        ensures
            out.len() == nl_in(data@, 0, e as int) as int / (sample as int) - base as int / (sample as int),
        decreases e - pos,
    {
        let hay = &data[pos..e];
        match first_byte(NEWLINE, hay) {
            Some(p) => {
                let q: usize = pos + p;
                proof {
                    assert forall|j: int| pos <= j < q implies data@[j] != NEWLINE by {
                        assert(hay@[j - pos] == data@[j]);
                    }
                    assert(hay@[p as int] == data@[q as int]);
                    lemma_nl_in_none(data@, pos as int, q as int);
                    lemma_nl_in_split(data@, 0, pos as int, q as int);
                    lemma_nl_in_bound(data@, 0, q + 1);
                    lemma_div_step((base + local) as nat, sample as nat);
                    vstd::arithmetic::div_mod::lemma_div_is_ordered(base as int, (base + local) as int, sample as int);
                }
                let line_no: u64 = base + local + 1;
                local = local + 1;
                if line_no % sample == 0 {
                    proof {
                        let j = out.len() as int;
                        let ln = line_no as int;
                        let sm = sample as int;
                        vstd::arithmetic::div_mod::lemma_fundamental_div_mod(ln, sm);
                        assert(line_no / sample == base / sample + 1 + j);
                        assert(ln == (ln / sm) * sm) by (nonlinear_arith)
                            requires ln == sm * (ln / sm) + ln % sm, ln % sm == 0;
                        assert(is_line_start(data@, (q + 1) as int, line_no as nat));
                    }
                    out.push((q + 1) as u64);
                }
                pos = q + 1;
            },
            None => {
                proof {
                    assert forall|j: int| pos <= j < e implies data@[j] != NEWLINE by {
                        assert(hay@[j - pos] == data@[j]);
                    }
                    lemma_nl_in_none(data@, pos as int, e as int);
                    lemma_nl_in_split(data@, 0, pos as int, e as int);
                }
                break;
            },
        }
    }
    out
}


// ---------------------------------------------------------------------------
// The index
// ---------------------------------------------------------------------------

/// Number of line starts an index with sampling `sample` keeps for `s`.
pub open spec fn checkpoint_count(s: Seq<u8>, sample: nat) -> nat {
    if sample == 0 {
        1
    } else {
        newline_count(s) / sample + 1
    }
}

/// Sparse line index: the start offset of every `sample`-th line of the bytes
/// it was built from, with the number of lines and bytes.
pub struct LineIndex {
    /// `checkpoints[k]` is the byte offset where line `k * sample` begins.
    checkpoints: Vec<u64>,
    sample: u64,
    /// Number of lines of the indexed bytes (read it with `line_count`).
    total_lines: u64,
    /// Number of indexed bytes (read it with `byte_count`).
    file_len: u64,
}

impl LineIndex {
    /// Number of lines between stored line starts.
    pub closed spec fn sampling(&self) -> nat {
        self.sample as nat
    }

    /// The stored line starts are exactly those of lines `0, sample, 2 * sample, ...`
    /// of `data`.
    pub closed spec fn starts_of(&self, data: Seq<u8>) -> bool {
        &&& data.len() > 0 ==> self.sample > 0
        &&& self.checkpoints@.len() == checkpoint_count(data, self.sample as nat)
        &&& forall|k: int| 0 <= k < self.checkpoints@.len() ==> is_line_start(data,
            #[trigger] self.checkpoints@[k] as int, (k * self.sample) as nat)
    }

    /// This index was built over `data`.
    pub closed spec fn indexes(&self, data: Seq<u8>) -> bool {
        &&& self.starts_of(data)
        &&& self.total_lines == line_count(data)
        &&& self.file_len == data.len()
    }

    /// Number of line starts the index stores.
    pub closed spec fn stored_starts(&self) -> nat {
        self.checkpoints@.len()
    }

    /// The index is sparse: over non-empty bytes it stores one line start for
    /// every `sample` line feeds, plus the start of the first line; that is,
    /// the starts of lines `0, sample, 2 * sample, ...` up to the last line
    /// feed and no more.
    pub proof fn law_one_start_per_sample(&self, data: Seq<u8>)
        requires
            self.indexes(data),
            data.len() > 0,
        ensures
            self.sampling() > 0,
            self.stored_starts() == newline_count(data) / self.sampling() + 1,
            (self.stored_starts() - 1) * self.sampling() <= newline_count(data),
            newline_count(data) < self.stored_starts() * self.sampling(),
    {
        let m = newline_count(data) as int;
        let d = self.sample as int;
        vstd::arithmetic::div_mod::lemma_fundamental_div_mod(m, d);
        let q = m / d;
        let r = m % d;
        assert(q * d <= m) by (nonlinear_arith)
            requires m == d * q + r, 0 <= r;
        assert((q + 1) * d > m) by (nonlinear_arith)
            requires m == d * q + r, r < d;
    }

    /// Number of lines recorded in the index.
    pub closed spec fn line_total(&self) -> nat {
        self.total_lines as nat
    }

    /// Number of bytes recorded in the index.
    pub closed spec fn byte_total(&self) -> nat {
        self.file_len as nat
    }

    /// The line and byte counts of an index are those of its bytes.
    pub proof fn lemma_counts(&self, data: Seq<u8>)
        requires
            self.indexes(data),
        ensures
            self.line_total() == line_count(data),
            self.byte_total() == data.len(),
    {
    }

    /// Number of lines of the indexed bytes.
    pub fn line_count(&self) -> (n: u64)
        ensures
            n == self.line_total(),
    {
        self.total_lines
    }

    /// Number of bytes indexed.
    pub fn byte_count(&self) -> (n: u64)
        ensures
            n == self.byte_total(),
    {
        self.file_len
    }

    /// Build the index of `data`, storing the start of every `sample`-th line.
    ///
    /// The bytes are scanned in parallel, one chunk per worker thread; each
    /// chunk adds its length to `progress` once it is counted.
    pub fn build(data: &[u8], sample: u64, progress: &AtomicU64) -> (idx: LineIndex)
        requires
            data.len() > 0 ==> sample > 0,
        ensures
            idx.indexes(data@),
            idx.sampling() == sample,
            idx.line_total() == line_count(data@),
            idx.byte_total() == data.len(),
    {
        let len = data.len();
        if len == 0 {
            let idx = LineIndex { checkpoints: vec![0u64], sample, total_lines: 0, file_len: 0 };
            proof {
                assert(is_line_start(data@, idx.checkpoints@[0] as int, (0 * sample) as nat));
            }
            return idx;
        }
        let t = worker_threads();
        let threads: usize = if t > 1 { t } else { 1 };
        let bounds = chunk_bounds(len, threads);

        // Pass 1: count line feeds per chunk.
        let count_chunk = |b: &(usize, usize)| -> (c: u64)
            requires
                b.0 <= b.1 <= data.len(),
            ensures
                c == span_newlines(data@, b),
            {
                count_newlines(data, b.0, b.1, progress)
            };
        proof {
            assert forall|i: int| 0 <= i < bounds.len() implies #[trigger] count_chunk.requires((&bounds@[i],)) by {
                assert(bounds@[i].0 < bounds@[i].1 <= len);
            }
        }
        let counts: Vec<u64> = par_map(&bounds, count_chunk);
        proof {
            assert forall|k: int| 0 <= k < bounds.len() implies #[trigger] counts@[k] == nl_in(data@,
                bounds@[k].0 as int, bounds@[k].1 as int) by {
                assert(count_chunk.ensures((&bounds@[k],), counts@[k]));
            }
        }

        // Line feeds before each chunk.
        let mut tasks: Vec<(usize, usize, u64)> = Vec::new();
        let mut running: u64 = 0;
        let mut i: usize = 0;
        while i < bounds.len()
            invariant
                tiles(bounds@, len as int),
                len == data.len(),
                counts.len() == bounds.len(),
                forall|k: int| 0 <= k < bounds.len() ==> #[trigger] counts@[k] == nl_in(data@,
                    bounds@[k].0 as int, bounds@[k].1 as int),
                i <= bounds.len(),
                tasks.len() == i,
                running == nl_in(data@, 0, if i < bounds.len() { bounds@[i as int].0 as int } else { len as int }),
                forall|k: int| 0 <= k < i ==> (#[trigger] tasks@[k]).0 == bounds@[k].0 && tasks@[k].1 == bounds@[k].1
                    && tasks@[k].2 == nl_in(data@, 0, bounds@[k].0 as int),
            decreases bounds.len() - i,
        {
            let (s, e) = bounds[i];
            tasks.push((s, e, running));
            proof {
                lemma_nl_in_split(data@, 0, s as int, e as int);
                lemma_nl_in_bound(data@, 0, e as int);
                if i + 1 < bounds.len() {
                    assert(bounds@[i as int].1 == bounds@[i + 1].0);
                }
            }
            running = running + counts[i];
            i = i + 1;
        }
        let total_newlines = running;
        proof {
            assert(total_newlines == newline_count(data@));
            lemma_nl_in_bound(data@, 0, len as int);
        }

        // Pass 2: the line starts numbered by a multiple of `sample`.
        let scan_chunk = |t: &(usize, usize, u64)| -> (out: Vec<u64>)
            requires
                t.0 <= t.1 <= data.len(),
                sample > 0,
                task_ready(data@, t),
            ensures
                chunk_starts(data@, t, sample, out@),
            {
                chunk_checkpoints(data, t.0, t.1, t.2, sample)
            };
        proof {
            assert forall|i: int| 0 <= i < tasks.len() implies #[trigger] scan_chunk.requires((&tasks@[i],)) by {
                assert(bounds@[i].0 < bounds@[i].1 <= len);
            }
        }
        let per_chunk: Vec<Vec<u64>> = par_map(&tasks, scan_chunk);
        proof {
            assert forall|k: int| 0 <= k < tasks.len() implies chunk_starts(data@, &tasks@[k], sample, #[trigger] per_chunk@[k]@) by {
                assert(scan_chunk.ensures((&tasks@[k],), per_chunk@[k]));
            }
        }

        let slots: usize = (total_newlines / sample) as usize;
        let capacity: usize = if slots < usize::MAX { slots + 1 } else { slots };
        let mut checkpoints: Vec<u64> = Vec::with_capacity(capacity);
        checkpoints.push(0u64);
        proof {
            assert(is_line_start(data@, checkpoints@[0] as int, (0 * sample) as nat));
        }
        let mut ci: usize = 0;
        while ci < per_chunk.len()
            invariant
                tiles(bounds@, len as int),
                len == data.len(),
                sample > 0,
                tasks.len() == bounds.len(),
                per_chunk.len() == bounds.len(),
                forall|k: int| 0 <= k < bounds.len() ==> (#[trigger] tasks@[k]).0 == bounds@[k].0 && tasks@[k].1 == bounds@[k].1
                    && tasks@[k].2 == nl_in(data@, 0, bounds@[k].0 as int),
                forall|k: int| 0 <= k < per_chunk.len() ==> (#[trigger] per_chunk@[k]).len()
                    == nl_in(data@, 0, tasks@[k].1 as int) as int / (sample as int) - nl_in(data@, 0, tasks@[k].0 as int) as int / (sample as int),
                forall|k: int, j: int| 0 <= k < per_chunk.len() && 0 <= j < per_chunk@[k].len() ==> is_line_start(data@,
                    #[trigger] per_chunk@[k]@[j] as int,
                    ((first_slot(nl_in(data@, 0, tasks@[k].0 as int), sample as nat) + j) * sample) as nat),
                ci <= per_chunk.len(),
                checkpoints.len() == nl_in(data@, 0, if ci < bounds.len() { bounds@[ci as int].0 as int } else { len as int }) / (sample as nat) + 1,
                forall|k: int| 0 <= k < checkpoints.len() ==> is_line_start(data@, #[trigger] checkpoints@[k] as int, (k * sample) as nat),
            decreases per_chunk.len() - ci,
        {
            let cv = &per_chunk[ci];
            let ghost first = checkpoints.len();
            let ghost before = nl_in(data@, 0, bounds@[ci as int].0 as int);
            proof {
                assert(tasks@[ci as int].0 == bounds@[ci as int].0);
                assert(first == before / (sample as nat) + 1);
            }
            let mut j: usize = 0;
            while j < cv.len()
                invariant
                    ci < per_chunk.len(),
                    cv == per_chunk@[ci as int],
                    sample > 0,
                    j <= cv.len(),
                    first == before / (sample as nat) + 1,
                    checkpoints.len() == first + j,
                    forall|m: int| 0 <= m < cv.len() ==> is_line_start(data@, #[trigger] cv@[m] as int,
                        ((first_slot(before, sample as nat) + m) * sample) as nat),
                    forall|k: int| 0 <= k < checkpoints.len() ==> is_line_start(data@, #[trigger] checkpoints@[k] as int, (k * sample) as nat),
                decreases cv.len() - j,
            {
                proof {
                    assert(is_line_start(data@, cv@[j as int] as int, ((first_slot(before, sample as nat) + j) * sample) as nat));
                }
                checkpoints.push(cv[j]);
                j = j + 1;
            }
            proof {
                if ci + 1 < bounds.len() {
                    assert(bounds@[ci as int].1 == bounds@[ci + 1].0);
                }
                lemma_nl_in_mono(data@, 0, bounds@[ci as int].0 as int, bounds@[ci as int].1 as int);
                vstd::arithmetic::div_mod::lemma_div_is_ordered(before as int,
                    nl_in(data@, 0, bounds@[ci as int].1 as int) as int, sample as int);
            }
            ci = ci + 1;
        }

        // The unterminated tail, if any, is one more line.
        let has_trailing = data[len - 1] != NEWLINE;
        proof {
            lemma_nl_in_bound(data@, 0, len - 1);
        }
        let total_lines: u64 = if has_trailing { total_newlines + 1 } else { total_newlines };
        LineIndex { checkpoints, sample, total_lines, file_len: len as u64 }
    }
}


/// Binary search in the strictly increasing `items`: `Ok(i)` with
/// `items[i] == x` when `x` occurs, else `Err(i)` with `i` the position where
/// `x` could be inserted keeping the order (every item before `i` is smaller
/// and every item from `i` on is larger).
fn sorted_position(items: &[u64], x: u64) -> (r: Result<usize, usize>)
    requires
        forall|i: int, j: int| 0 <= i < j < items@.len() ==> items@[i] < items@[j],
    ensures
        match r {
            Ok(i) => i < items@.len() && items@[i as int] == x,
            Err(i) => {
                &&& i <= items@.len()
                &&& forall|j: int| 0 <= j < i ==> items@[j] < x
                &&& forall|j: int| i <= j < items@.len() ==> items@[j] > x
            },
        },
{
    let mut lo: usize = 0;
    let mut hi: usize = items.len();
    while lo < hi
        invariant
            lo <= hi <= items@.len(),
            forall|i: int, j: int| 0 <= i < j < items@.len() ==> items@[i] < items@[j],
            forall|j: int| 0 <= j < lo ==> items@[j] < x,
            forall|j: int| hi <= j < items@.len() ==> items@[j] > x,
        decreases hi - lo,
    {
        let mid: usize = lo + (hi - lo) / 2;
        let v = items[mid];
        if v < x {
            proof {
                assert forall|j: int| 0 <= j < mid + 1 implies items@[j] < x by {
                    if j < mid {
                        assert(items@[j] < items@[mid as int]);
                    }
                }
            }
            lo = mid + 1;
        } else if v > x {
            proof {
                assert forall|j: int| mid <= j < items@.len() implies items@[j] > x by {
                    if j > mid {
                        assert(items@[mid as int] < items@[j]);
                    }
                }
            }
            hi = mid;
        } else {
            return Ok(mid);
        }
    }
    Err(lo)
}

impl LineIndex {
    /// The `k`-th stored line start.
    pub closed spec fn stored_start(&self, k: int) -> int {
        self.checkpoints@[k] as int
    }

    /// The stored line starts are those of lines `0, sample, 2 * sample, ...`
    /// up to the last line feed: the first is offset 0, they increase
    /// strictly, and the `k`-th is where line `k * sample` begins, so it
    /// follows a line feed (for `k > 0`) and has exactly `k * sample` line
    /// feeds before it.
    pub proof fn law_stored_starts(&self, data: Seq<u8>)
        requires
            self.indexes(data),
            self.sampling() > 0,
        ensures
            self.stored_starts() == newline_count(data) / self.sampling() + 1,
            self.stored_start(0) == 0,
            forall|k: int| 0 <= k < self.stored_starts() ==> {
                &&& #[trigger] self.stored_start(k) == line_start(data, (k * self.sampling()) as nat)
                &&& is_line_start(data, self.stored_start(k), (k * self.sampling()) as nat)
            },
            forall|k: int| 1 <= k < self.stored_starts() ==> {
                &&& 0 < #[trigger] self.stored_start(k) <= data.len()
                &&& data[self.stored_start(k) - 1] == NEWLINE
                &&& nl_in(data, 0, self.stored_start(k)) == k * self.sampling()
            },
            forall|i: int, j: int| 0 <= i < j < self.stored_starts() ==> #[trigger] self.stored_start(i)
                < #[trigger] self.stored_start(j),
    {
        self.lemma_checkpoint(data, 0);
        assert forall|k: int| 0 <= k < self.stored_starts() implies {
            &&& #[trigger] self.stored_start(k) == line_start(data, (k * self.sampling()) as nat)
            &&& is_line_start(data, self.stored_start(k), (k * self.sampling()) as nat)
        } by {
            self.lemma_checkpoint(data, k);
        }
        assert forall|k: int| 1 <= k < self.stored_starts() implies {
            &&& 0 < #[trigger] self.stored_start(k) <= data.len()
            &&& data[self.stored_start(k) - 1] == NEWLINE
            &&& nl_in(data, 0, self.stored_start(k)) == k * self.sampling()
        } by {
            self.lemma_checkpoint(data, k);
            assert(k * self.sample >= 1) by (nonlinear_arith)
                requires k >= 1, self.sample >= 1;
        }
        assert forall|i: int, j: int| 0 <= i < j < self.stored_starts() implies #[trigger] self.stored_start(i)
            < #[trigger] self.stored_start(j) by {
            self.lemma_checkpoint(data, i);
            self.lemma_checkpoint(data, j);
            assert(i * self.sample < j * self.sample) by (nonlinear_arith)
                requires i < j, self.sample > 0;
            lemma_line_start_order(data, self.checkpoints@[i] as int, (i * self.sample) as nat,
                self.checkpoints@[j] as int, (j * self.sample) as nat);
        }
    }

    /// An index is determined by its bytes and its sampling: two indexes of
    /// the same bytes with the same sampling store the same line starts and
    /// the same counts, whatever thread count or chunking built them. Each
    /// equals what one sequential scan gives ([`line_start`] of lines
    /// `0, sample, 2 * sample, ...`).
    pub proof fn law_index_determined(a: &LineIndex, b: &LineIndex, data: Seq<u8>)
        requires
            a.indexes(data),
            b.indexes(data),
            a.sampling() == b.sampling(),
        ensures
            a.stored_starts() == b.stored_starts(),
            forall|k: int| 0 <= k < a.stored_starts() ==> #[trigger] a.stored_start(k) == b.stored_start(k),
            a.line_total() == b.line_total(),
            a.byte_total() == b.byte_total(),
    {
        assert forall|k: int| 0 <= k < a.stored_starts() implies #[trigger] a.stored_start(k) == b.stored_start(k) by {
            a.lemma_checkpoint(data, k);
            b.lemma_checkpoint(data, k);
        }
    }

    proof fn lemma_checkpoint(&self, data: Seq<u8>, k: int)
        requires
            self.indexes(data),
            0 <= k < self.checkpoints@.len(),
        ensures
            is_line_start(data, self.checkpoints@[k] as int, (k * self.sample) as nat),
            self.checkpoints@[k] as int == line_start(data, (k * self.sample) as nat),
            k * self.sample <= newline_count(data),
    {
        assert(is_line_start(data, self.checkpoints@[k] as int, (k * self.sample) as nat));
        lemma_is_line_start_eq(data, self.checkpoints@[k] as int, (k * self.sample) as nat);
    }

    /// `[start, end)` byte range of line `line`, the line feed excluded;
    /// `(data.len(), data.len())` when there is no such line.
    pub fn line_range(&self, data: &[u8], line: u64) -> (r: (usize, usize))
        requires
            self.indexes(data@),
        ensures
            r.0 == line_span(data@, line as int).0,
            r.1 == line_span(data@, line as int).1,
    {
        if line >= self.total_lines {
            return (data.len(), data.len());
        }
        proof {
            lemma_nl_in_bound(data@, 0, data@.len() as int);
            assert(data@.len() > 0);
            assert(self.sample > 0);
            assert(line <= newline_count(data@));
            vstd::arithmetic::div_mod::lemma_div_is_ordered(line as int, newline_count(data@) as int, self.sample as int);
            vstd::arithmetic::div_mod::lemma_fundamental_div_mod(line as int, self.sample as int);
            let q = line as int / self.sample as int;
            let r = line as int % self.sample as int;
            assert(q * self.sample <= line) by (nonlinear_arith)
                requires line == self.sample * q + r, 0 <= r;
            assert(q <= newline_count(data@)) by (nonlinear_arith)
                requires q * self.sample <= line, line <= newline_count(data@), self.sample >= 1, q >= 0;
            assert((line / self.sample) as int <= data.len());
            assert(((line / self.sample) as int) * self.sample <= line);
        }
        let ci: usize = (line / self.sample) as usize;
        proof {
            self.lemma_checkpoint(data@, ci as int);
            lemma_nl_in_bound(data@, 0, self.checkpoints@[ci as int] as int);
        }
        let base_line: u64 = ci as u64 * self.sample;
        let mut start: usize = self.checkpoints[ci] as usize;
        let mut skip: u64 = line - base_line;
        while skip > 0
            invariant
                self.indexes(data@),
                line < line_count(data@),
                line <= newline_count(data@),
                skip <= line,
                start as int == line_start(data@, (line - skip) as nat),
                start <= data.len(),
            decreases skip,
        {
            let hay = &data[start..data.len()];
            proof {
                lemma_line_start(data@, (line - skip) as nat);
                lemma_line_start_not_last(data@, (line - skip) as nat);
                lemma_next_newline(data@, start as int);
            }
            match first_byte(NEWLINE, hay) {
                Some(p) => {
                    proof {
                        assert forall|j: int| start <= j < start + p implies data@[j] != NEWLINE by {
                            assert(hay@[j - start] == data@[j]);
                        }
                        assert(hay@[p as int] == data@[start + p]);
                        lemma_next_newline_found(data@, start as int, start + p);
                        assert(line_start(data@, (line - skip + 1) as nat) == next_newline(data@, line_start(data@, (line - skip) as nat)) + 1);
                    }
                    start = start + p + 1;
                    skip = skip - 1;
                },
                None => {
                    proof {
                        assert(hay@[next_newline(data@, start as int) - start] == data@[next_newline(data@, start as int)]);
                        assert(false);
                    }
                    return (data.len(), data.len());
                },
            }
        }
        proof {
            lemma_line_start(data@, line as nat);
            lemma_next_newline(data@, start as int);
        }
        let hay = &data[start..data.len()];
        let end: usize = match first_byte(NEWLINE, hay) {
            Some(p) => {
                proof {
                    assert forall|j: int| start <= j < start + p implies data@[j] != NEWLINE by {
                        assert(hay@[j - start] == data@[j]);
                    }
                    assert(hay@[p as int] == data@[start + p]);
                    lemma_next_newline_found(data@, start as int, start + p);
                }
                start + p
            },
            None => {
                proof {
                    assert forall|j: int| start <= j < data@.len() implies data@[j] != NEWLINE by {
                        assert(hay@[j - start] == data@[j]);
                    }
                    lemma_next_newline_absent(data@, start as int);
                }
                data.len()
            },
        };
        (start, end)
    }

    /// The bytes of line `line`, with a trailing carriage return removed.
    pub fn line_bytes<'a>(&self, data: &'a [u8], line: u64) -> (r: &'a [u8])
        requires
            self.indexes(data@),
        ensures
            r@ == line_text(data@, line as int),
    {
        let (s, e) = self.line_range(data, line);
        proof {
            let st = line_span(data@, line as int).0;
            if 0 <= line < line_count(data@) {
                lemma_nl_in_bound(data@, 0, data@.len() as int);
                lemma_line_start(data@, line as nat);
                lemma_next_newline(data@, st);
            }
        }
        if s < e && data[e - 1] == 0x0du8 {
            &data[s..e - 1]
        } else {
            &data[s..e]
        }
    }

    /// Byte offset where line `line` begins, `data.len()` past the last line.
    pub fn line_start(&self, data: &[u8], line: u64) -> (r: usize)
        requires
            self.indexes(data@),
        ensures
            r == line_span(data@, line as int).0,
    {
        self.line_range(data, line).0
    }

    /// The line that contains byte offset `offset` (clamped to the end of
    /// the bytes), kept within the last line.
    pub fn line_at_offset(&self, data: &[u8], offset: usize) -> (r: u64)
        requires
            self.indexes(data@),
        ensures
            r == line_of_offset(data@, offset as int),
    {
        let offset: usize = if offset < data.len() { offset } else { data.len() };
        proof {
            assert forall|i: int, j: int| 0 <= i < j < self.checkpoints@.len()
                implies self.checkpoints@[i] < self.checkpoints@[j] by {
                self.lemma_checkpoint(data@, i);
                self.lemma_checkpoint(data@, j);
                if self.sample > 0 {
                    assert(i * self.sample < j * self.sample) by (nonlinear_arith)
                        requires i < j, self.sample > 0;
                    lemma_line_start_order(data@, self.checkpoints@[i] as int, (i * self.sample) as nat,
                        self.checkpoints@[j] as int, (j * self.sample) as nat);
                }
            }
            self.lemma_checkpoint(data@, 0);
        }
        let ci: usize = match sorted_position(&self.checkpoints, offset as u64) {
            Ok(i) => i,
            Err(i) => {
                if i == 0 {
                    proof {
                        assert(self.checkpoints@[0] > offset);
                    }
                }
                i - 1
            },
        };
        proof {
            self.lemma_checkpoint(data@, ci as int);
            lemma_nl_in_bound(data@, 0, self.checkpoints@[ci as int] as int);
        }
        let mut line: u64 = ci as u64 * self.sample;
        let mut pos: usize = self.checkpoints[ci] as usize;
        while pos < offset
            invariant
                pos <= offset <= data.len(),
                line == nl_in(data@, 0, pos as int),
            ensures
                line == nl_in(data@, 0, offset as int),
            decreases offset - pos,
        {
            let hay = &data[pos..offset];
            match first_byte(NEWLINE, hay) {
                Some(p) => {
                    proof {
                        let q = pos + p;
                        assert forall|j: int| pos <= j < q implies data@[j] != NEWLINE by {
                            assert(hay@[j - pos] == data@[j]);
                        }
                        assert(hay@[p as int] == data@[q]);
                        lemma_nl_in_none(data@, pos as int, q);
                        lemma_nl_in_split(data@, 0, pos as int, q);
                        lemma_nl_in_bound(data@, 0, q + 1);
                    }
                    line = line + 1;
                    pos = pos + p + 1;
                },
                None => {
                    proof {
                        assert forall|j: int| pos <= j < offset implies data@[j] != NEWLINE by {
                            assert(hay@[j - pos] == data@[j]);
                        }
                        lemma_nl_in_none(data@, pos as int, offset as int);
                        lemma_nl_in_split(data@, 0, pos as int, offset as int);
                    }
                    break;
                },
            }
        }
        let last: u64 = self.total_lines.saturating_sub(1);
        if line < last {
            line
        } else {
            last
        }
    }
}

} // verus!
