//! The arithmetic and bookkeeping of the heap profiler: the size classes the
//! counters bucket by, the timeline row and what it says about allocator
//! overhead, the kernel's `/proc` files read as text, and the table that
//! attributes large allocations to the stacks that made them.
//!
//! The counters themselves are atomics behind a global allocator, and the
//! files are read from disk, so both live with the program; everything that
//! decides something about them is here.

use vstd::prelude::*;
use std::collections::HashMap;
use crate::lane_ids::{key_of, fnv1a64_from, FNV64_OFFSET, ne_bytes_all};
use crate::order::{keeps_ties, lemma_keeps_ties_step};
use crate::text::{words, split_words, parse_usize, parse_usize_chars, split_by, split_chars, chars_of};

verus! {

broadcast use vstd::std_specs::hash::group_hash_axioms;

/// How many power-of-two size classes the live bytes are bucketed into.
pub const SIZE_CLASS_COUNT: usize = 32;

/// The number of significant bits of `n`: zero for zero.
pub open spec fn bit_len(n: nat) -> nat
    decreases n,
{
    if n == 0 {
        0
    } else {
        1 + bit_len(n / 2)
    }
}

/// The class an allocation of `bytes` is counted in: its number of significant
/// bits, with everything at or above 2^30 in the last class.
pub open spec fn size_class_spec(bytes: nat) -> nat {
    if bit_len(bytes) < SIZE_CLASS_COUNT - 1 {
        bit_len(bytes)
    } else {
        (SIZE_CLASS_COUNT - 1) as nat
    }
}

proof fn lemma_leading_zeros_bit_len(i: u64)
    ensures
        vstd::std_specs::bits::u64_leading_zeros(i) == 64 - bit_len(i as nat),
        bit_len(i as nat) <= 64,
    decreases i,
{
    reveal(vstd::std_specs::bits::u64_leading_zeros);
    if i != 0 {
        lemma_leading_zeros_bit_len(i / 2);
        assert(bit_len(i as nat) == 1 + bit_len((i / 2) as nat));
        assert(bit_len(i as nat) <= 64) by {
            vstd::arithmetic::power2::lemma2_to64();
            lemma_bit_len_bound(i as nat, 64);
        }
    }
}

proof fn lemma_bit_len_bound(n: nat, k: nat)
    requires
        n < vstd::arithmetic::power2::pow2(k),
    ensures
        bit_len(n) <= k,
    decreases n,
{
    if n != 0 {
        if k == 0 {
            vstd::arithmetic::power2::lemma2_to64();
        } else {
            vstd::arithmetic::power2::lemma_pow2_unfold(k);
            lemma_bit_len_bound(n / 2, (k - 1) as nat);
        }
    }
}

/// The size class of an allocation of `bytes`.
pub fn size_class(bytes: usize) -> (class: usize)
    ensures
        class == size_class_spec(bytes as nat),
        class < SIZE_CLASS_COUNT,
{
    let lz = (bytes as u64).leading_zeros();
    proof {
        lemma_leading_zeros_bit_len(bytes as u64);
    }
    let bits: u32 = 64 - lz;
    if (bits as usize) < SIZE_CLASS_COUNT - 1 {
        bits as usize
    } else {
        SIZE_CLASS_COUNT - 1
    }
}

/// The byte range a size class covers in the report, from its lower bound up
/// to (not including) its upper one: class 0 starts at nothing, class `i`
/// above it at 2^(i-1), and every class ends at 2^i.
pub fn class_bounds(class: usize) -> (b: (usize, usize))
    requires
        class < SIZE_CLASS_COUNT,
    ensures
        b.0 == if class == 0 {
            0
        } else {
            vstd::arithmetic::power2::pow2((class - 1) as nat)
        },
        b.1 == vstd::arithmetic::power2::pow2(class as nat),
{
    proof {
        vstd::bits::lemma_usize_pow2_no_overflow(class as nat);
        vstd::bits::lemma_usize_shl_is_mul(1, class);
        if class > 0 {
            vstd::bits::lemma_usize_pow2_no_overflow((class - 1) as nat);
            vstd::bits::lemma_usize_shl_is_mul(1, (class - 1) as usize);
        }
    }
    let lo: usize = if class == 0 {
        0
    } else {
        1usize << (class - 1)
    };
    (lo, 1usize << class)
}

/// One row of the timeline.
#[derive(Debug, Clone, Copy)]
pub struct Snapshot {
    /// Bytes the program itself is holding.
    pub live: usize,
    /// High-water mark of `live` since process start.
    pub peak: usize,
    /// Cumulative allocations.
    pub allocs: u64,
    /// Cumulative deallocations.
    pub frees: u64,
    /// Cumulative bytes ever handed out.
    pub total_bytes: u64,
    /// Resident set size, from the kernel.
    pub rss: usize,
    /// Virtual size, from the kernel.
    pub vsz: usize,
    /// The anonymous half of RSS: heap, stacks, and anonymous mmaps.
    pub rss_anon: usize,
    /// The file-backed half of RSS.
    pub rss_file: usize,
}

impl Snapshot {
    /// What the allocator is holding that the program has already given back,
    /// measured against anonymous RSS only and saturating at zero.
    pub fn allocator_overhead(&self) -> (overhead: usize)
        ensures
            overhead == (if self.rss_anon >= self.live {
                (self.rss_anon - self.live) as usize
            } else {
                0usize
            }),
    {
        self.rss_anon.saturating_sub(self.live)
    }
}

/// The program's own counters, read at one moment.
#[derive(Debug, Clone, Copy)]
pub struct Counters {
    pub live: usize,
    pub peak: usize,
    pub allocs: u64,
    pub frees: u64,
    pub total_bytes: u64,
}

// ── /proc/self/statm ─────────────────────────────────────────────────────────

/// The number the `k`th word of `ws` parses to, or zero where it is missing
/// or not a number.
pub open spec fn word_value(ws: Seq<Seq<char>>, k: int) -> usize {
    if 0 <= k < ws.len() {
        match parse_usize(ws[k]) {
            Some(v) => v,
            None => 0,
        }
    } else {
        0
    }
}

/// `(rss, vsz)` in pages, as `/proc/self/statm` states them: the second and
/// the first word.
pub open spec fn statm_pages(text: Seq<char>) -> (usize, usize) {
    (word_value(words(text), 1), word_value(words(text), 0))
}

/// Whether both page counts of `text`, times `page`, fit in a `usize`.
pub open spec fn statm_fits(text: Seq<char>, page: usize) -> bool {
    &&& statm_pages(text).0 * page <= usize::MAX
    &&& statm_pages(text).1 * page <= usize::MAX
}

fn word_value_of(ws: &Vec<Vec<char>>, k: usize) -> (v: usize)
    ensures
        v == word_value(ws@.map_values(|w: Vec<char>| w@), k as int),
{
    if k < ws.len() {
        match parse_usize_chars(ws[k].as_slice()) {
            Some(v) => v,
            None => 0,
        }
    } else {
        0
    }
}

fn words_of(text: &str) -> (ws: Vec<Vec<char>>)
    ensures
        ws@.map_values(|w: Vec<char>| w@) == words(text@),
{
    let cs = chars_of(text);
    let ws = split_words(cs.as_slice());
    assert(ws@.map_values(|w: Vec<char>| w@) =~= words(text@));
    ws
}

/// Whether [`statm_bytes`] can be asked about `text` without overflowing.
pub fn statm_bytes_fit(text: &str, page: usize) -> (b: bool)
    ensures
        b == statm_fits(text@, page),
{
    let ws = words_of(text);
    let rss = word_value_of(&ws, 1);
    let vsz = word_value_of(&ws, 0);
    rss.checked_mul(page).is_some() && vsz.checked_mul(page).is_some()
}

/// `(rss, vsz)` in bytes from the text of `/proc/self/statm`.
pub fn statm_bytes(text: &str, page: usize) -> (r: (usize, usize))
    requires
        statm_fits(text@, page),
    ensures
        r.0 == statm_pages(text@).0 * page,
        r.1 == statm_pages(text@).1 * page,
{
    let ws = words_of(text);
    let rss = word_value_of(&ws, 1);
    let vsz = word_value_of(&ws, 0);
    (rss * page, vsz * page)
}

/// The page size the kernel reported, or 4096 where it reported none.
pub fn page_size_or_default(raw: i64) -> (page: usize)
    ensures
        raw > 0 && raw <= usize::MAX ==> page == raw,
        !(raw > 0 && raw <= usize::MAX) ==> page == 4096,
{
    if raw > 0 && raw as u128 <= usize::MAX as u128 {
        raw as usize
    } else {
        4096
    }
}

// ── /proc/self/smaps_rollup ──────────────────────────────────────────────────

/// What a `key: value` line of `smaps_rollup` says: its key and the number of
/// kB its first word parses to (zero if none), or `None` for a line with no
/// colon.
pub open spec fn smaps_entry(line: Seq<char>) -> Option<(Seq<char>, usize)> {
    let parts = split_by(line, seq![':']);
    if parts.len() >= 2 {
        let key = parts[0];
        let rest = line.subrange(key.len() + 1int, line.len() as int);
        Some((key, word_value(words(rest), 0)))
    } else {
        None
    }
}

/// The two key spellings the anonymous total goes by across kernel versions.
pub open spec fn is_anon_key(key: Seq<char>) -> bool {
    key == "Anonymous"@ || key == "Rss_Anon"@
}

/// The resident total's key.
pub open spec fn is_rss_key(key: Seq<char>) -> bool {
    key == "Rss"@
}

/// `(anonymous, rss)` in bytes after reading `lines` in order: the last line
/// naming each wins.
pub open spec fn smaps_fold(lines: Seq<Seq<char>>) -> (nat, nat)
    decreases lines.len(),
{
    if lines.len() == 0 {
        (0, 0)
    } else {
        let prev = smaps_fold(lines.drop_last());
        match smaps_entry(lines.last()) {
            Some((key, kb)) => if is_anon_key(key) {
                ((kb * 1024) as nat, prev.1)
            } else if is_rss_key(key) {
                (prev.0, (kb * 1024) as nat)
            } else {
                prev
            },
            None => prev,
        }
    }
}

/// Whether every line that sets a total sets one that fits in a `usize`.
pub open spec fn smaps_fits(lines: Seq<Seq<char>>) -> bool {
    forall|i: int|
        0 <= i < lines.len() ==> match #[trigger] smaps_entry(lines[i]) {
            Some((key, kb)) => (is_anon_key(key) || is_rss_key(key)) ==> kb * 1024 <= usize::MAX,
            None => true,
        }
}

/// The lines of `text`, split at each `\n`.
pub open spec fn text_lines(text: Seq<char>) -> Seq<Seq<char>> {
    split_by(text, seq!['\n'])
}

/// `(anonymous, file-backed)` resident bytes as `smaps_rollup` states them: the
/// anonymous total, and what the resident total holds beyond it.
pub open spec fn smaps_split(text: Seq<char>) -> (usize, usize) {
    let (anon, rss) = smaps_fold(text_lines(text));
    (anon as usize, if rss >= anon {
        (rss - anon) as usize
    } else {
        0usize
    })
}

pub fn chars_eq_lit(a: &[char], lit: &str) -> (b: bool)
    ensures
        b == (a@ == lit@),
{
    let l = chars_of(lit);
    if a.len() != l.len() {
        return false;
    }
    let mut i: usize = 0;
    while i < a.len()
        invariant
            0 <= i <= a@.len(),
            a@.len() == l@.len(),
            l@ == lit@,
            forall|k: int| 0 <= k < i ==> a@[k] == l@[k],
        decreases a@.len() - i,
    {
        if a[i] != l[i] {
            return false;
        }
        i = i + 1;
    }
    assert(a@ == l@);
    true
}

fn smaps_entry_of(line: &Vec<char>) -> (r: Option<(Vec<char>, usize)>)
    ensures
        match smaps_entry(line@) {
            Some((key, kb)) => r.is_some() && r.unwrap().0@ == key && r.unwrap().1 == kb,
            None => r.is_none(),
        },
{
    let colon = [':'];
    let parts = split_chars(line.as_slice(), &colon);
    assert(colon@ == seq![':']);
    if parts.len() >= 2 {
        let klen = parts[0].len();
        proof {
            assert(split_by(line@, seq![':']).len() >= 2);
            lemma_split_piece_fits(line@, seq![':']);
            assert(parts@[0]@ == split_by(line@, seq![':'])[0]);
            assert(split_by(line@, seq![':'])[0].len() + 1 <= line@.len());
            assert(klen == parts@[0]@.len());
        }
        let key = crate::text::slice_chars(&parts[0], 0, klen);
        assert(key@ == parts@[0]@);
        let n = line.len();
        let rest = crate::text::slice_chars(line, klen + 1, n);
        let ws = split_words(rest.as_slice());
        assert(ws@.map_values(|w: Vec<char>| w@) =~= words(rest@));
        let kb = word_value_of(&ws, 0);
        Some((key, kb))
    } else {
        None
    }
}

/// The first piece of a split with at least two pieces ends before the line does.
proof fn lemma_split_piece_fits(line: Seq<char>, seps: Seq<char>)
    ensures
        split_by(line, seps).len() >= 2 ==> split_by(line, seps)[0].len() + 1 <= line.len(),
        split_by(line, seps).len() >= 1,
        split_by(line, seps)[0].len() <= line.len(),
    decreases line.len(),
{
    if line.len() > 0 {
        lemma_split_piece_fits(line.drop_last(), seps);
    }
}

/// Whether [`smaps_bytes`] can be asked about `text` without overflowing.
pub fn smaps_bytes_fit(text: &str) -> (b: bool)
    ensures
        b == smaps_fits(text_lines(text@)),
{
    let cs = chars_of(text);
    let nl = ['\n'];
    let lines = split_chars(cs.as_slice(), &nl);
    assert(nl@ == seq!['\n']);
    let ghost ls = text_lines(text@);
    let mut i: usize = 0;
    while i < lines.len()
        invariant
            0 <= i <= lines@.len(),
            lines@.len() == ls.len(),
            ls == text_lines(text@),
            forall|k: int| 0 <= k < lines@.len() ==> (#[trigger] lines@[k])@ == ls[k],
            forall|k: int|
                0 <= k < i ==> match #[trigger] smaps_entry(ls[k]) {
                    Some((key, kb)) => (is_anon_key(key) || is_rss_key(key)) ==> kb * 1024
                        <= usize::MAX,
                    None => true,
                },
        decreases lines@.len() - i,
    {
        assert(lines@[i as int]@ == ls[i as int]);
        match smaps_entry_of(&lines[i]) {
            Some((key, kb)) => {
                let named = chars_eq_lit(key.as_slice(), "Anonymous") || chars_eq_lit(
                    key.as_slice(),
                    "Rss_Anon",
                ) || chars_eq_lit(key.as_slice(), "Rss");
                if named && kb.checked_mul(1024).is_none() {
                    proof {
                        let e = smaps_entry(ls[i as int]);
                        assert(e == Some((key@, kb)));
                        assert(is_anon_key(key@) || is_rss_key(key@));
                        assert(kb * 1024 > usize::MAX);
                        assert(!smaps_fits(ls));
                    }
                    return false;
                }
            },
            None => {},
        }
        i = i + 1;
    }
    true
}

/// `(anonymous, file-backed)` resident bytes from the text of
/// `/proc/self/smaps_rollup`.
pub fn smaps_bytes(text: &str) -> (r: (usize, usize))
    requires
        smaps_fits(text_lines(text@)),
    ensures
        r == smaps_split(text@),
{
    let cs = chars_of(text);
    let nl = ['\n'];
    let lines = split_chars(cs.as_slice(), &nl);
    assert(nl@ == seq!['\n']);
    let ghost ls = text_lines(text@);
    let mut anon: usize = 0;
    let mut rss: usize = 0;
    let mut i: usize = 0;
    while i < lines.len()
        invariant
            0 <= i <= lines@.len(),
            lines@.len() == ls.len(),
            smaps_fits(ls),
            forall|k: int| 0 <= k < lines@.len() ==> (#[trigger] lines@[k])@ == ls[k],
            (anon as nat, rss as nat) == smaps_fold(ls.take(i as int)),
        decreases lines@.len() - i,
    {
        proof {
            assert(ls.take(i as int + 1).drop_last() == ls.take(i as int));
            assert(ls.take(i as int + 1).last() == ls[i as int]);
            assert(lines@[i as int]@ == ls[i as int]);
        }
        match smaps_entry_of(&lines[i]) {
            Some((key, kb)) => {
                let is_anon = chars_eq_lit(key.as_slice(), "Anonymous") || chars_eq_lit(
                    key.as_slice(),
                    "Rss_Anon",
                );
                let is_rss = chars_eq_lit(key.as_slice(), "Rss");
                proof {
                    let _ = smaps_entry(ls[i as int]);
                }
                if is_anon {
                    anon = kb * 1024;
                } else if is_rss {
                    rss = kb * 1024;
                }
            },
            None => {},
        }
        i = i + 1;
    }
    assert(ls.take(ls.len() as int) == ls);
    (anon, rss.saturating_sub(anon))
}

/// One row of the timeline from the counters and the kernel's two files, each
/// total scaled to bytes.
pub fn snapshot(counters: Counters, statm: &str, smaps_rollup: &str, page: usize) -> (s: Snapshot)
    requires
        statm_fits(statm@, page),
        smaps_fits(text_lines(smaps_rollup@)),
    ensures
        s.live == counters.live,
        s.peak == counters.peak,
        s.allocs == counters.allocs,
        s.frees == counters.frees,
        s.total_bytes == counters.total_bytes,
        (s.rss, s.vsz) == (
            (statm_pages(statm@).0 * page) as usize,
            (statm_pages(statm@).1 * page) as usize,
        ),
        (s.rss_anon, s.rss_file) == smaps_split(smaps_rollup@),
{
    let (rss, vsz) = statm_bytes(statm, page);
    let (rss_anon, rss_file) = smaps_bytes(smaps_rollup);
    Snapshot {
        live: counters.live,
        peak: counters.peak,
        allocs: counters.allocs,
        frees: counters.frees,
        total_bytes: counters.total_bytes,
        rss,
        vsz,
        rss_anon,
        rss_file,
    }
}


// ── large-allocation attribution ─────────────────────────────────────────────

/// The threshold allocations are attributed at when nothing says otherwise.
pub const DEFAULT_LARGE_THRESHOLD: usize = 64 * 1024;

/// The attribution threshold the `SKRIBISTO_MEMPROF_LARGE` variable asks for:
/// its number (held one below the "not read yet" sentinel), or the default when
/// the variable is absent or not a number.
pub open spec fn threshold_spec(var: Option<Seq<char>>) -> usize {
    match var {
        Some(v) => match parse_usize(v) {
            Some(n) => if n < usize::MAX {
                n
            } else {
                (usize::MAX - 1) as usize
            },
            None => DEFAULT_LARGE_THRESHOLD,
        },
        None => DEFAULT_LARGE_THRESHOLD,
    }
}

/// The attribution threshold from the variable's value, if it was set.
pub fn large_threshold_from(var: Option<&str>) -> (t: usize)
    ensures
        t == threshold_spec(match var {
            Some(v) => Some(v@),
            None => None,
        }),
{
    match var {
        Some(v) => {
            let cs = chars_of(v);
            match parse_usize_chars(cs.as_slice()) {
                Some(n) => if n < usize::MAX {
                    n
                } else {
                    usize::MAX - 1
                },
                None => DEFAULT_LARGE_THRESHOLD,
            }
        },
        None => DEFAULT_LARGE_THRESHOLD,
    }
}

/// Whether an allocation of `bytes` gets a stack: capture is on (`threshold`
/// is not zero) and the allocation reaches the threshold.
pub fn is_large(threshold: usize, bytes: usize) -> (b: bool)
    ensures
        b == (threshold != 0 && bytes >= threshold),
{
    threshold != 0 && bytes >= threshold
}

/// One captured allocation site.
pub struct Site {
    /// Return addresses, innermost first.
    pub frames: Vec<usize>,
    /// Bytes currently live from this site.
    pub live: usize,
    /// Bytes ever allocated from this site.
    pub total: u64,
    /// Live allocation count.
    pub live_blocks: usize,
    /// High-water mark of `live`.
    pub peak: usize,
}

/// A site's accounting as a value.
pub open spec fn tally(s: Site) -> (usize, u64, usize, usize) {
    (s.live, s.total, s.live_blocks, s.peak)
}

/// The attribution table: sites by the key of their stack, and every live
/// large pointer with its size and site.
pub struct Sites {
    pub by_key: HashMap<u64, Site>,
    pub live_ptrs: HashMap<usize, (usize, u64)>,
}

/// The key a captured stack is filed under.
pub open spec fn stack_key(frames: Seq<usize>) -> u64 {
    fnv1a64_from(FNV64_OFFSET, ne_bytes_all(frames))
}

/// A site's accounting after a live allocation of `size` bytes is
/// attributed to it: live bytes, total and blocks go up, and the peak follows
/// the live bytes.
pub open spec fn tally_recorded(t: (usize, u64, usize, usize), size: usize) -> (usize, u64, usize, usize) {
    let live = (t.0 + size) as usize;
    (live, (t.1 + size) as u64, (t.2 + 1) as usize, if t.3 >= live { t.3 } else { live })
}

/// A site's accounting after one of its blocks of `size` bytes is freed:
/// live bytes and blocks go down, saturating at zero; total and peak stay.
pub open spec fn tally_forgotten(t: (usize, u64, usize, usize), size: usize) -> (usize, u64, usize, usize) {
    (
        if t.0 >= size { (t.0 - size) as usize } else { 0usize },
        t.1,
        if t.2 >= 1 { (t.2 - 1) as usize } else { 0usize },
        t.3,
    )
}

/// Freeing a large block undoes what allocating it did to its site's live
/// bytes and live blocks, while the site's total and peak keep the
/// allocation: a block allocated and freed leaves no live trace.
pub proof fn law_forget_undoes_record(t: (usize, u64, usize, usize), size: usize)
    requires
        t.0 + size <= usize::MAX,
        t.1 + size <= u64::MAX,
        t.2 + 1 <= usize::MAX,
    ensures
        tally_forgotten(tally_recorded(t, size), size) == (
            t.0,
            (t.1 + size) as u64,
            t.2,
            tally_recorded(t, size).3,
        ),
        tally_recorded(t, size).3 >= t.0 + size,
{
}

/// A large block allocated at a pointer the table did not hold and then
/// freed leaves the live-pointer table as it was: `record_large` files the
/// pointer and `forget_large` drops it again.
pub proof fn law_forgotten_pointer_leaves_no_trace(
    ptrs: Map<usize, (usize, u64)>,
    ptr: usize,
    entry: (usize, u64),
)
    requires
        !ptrs.contains_key(ptr),
    ensures
        ptrs.insert(ptr, entry).remove(ptr) == ptrs,
        ptrs.insert(ptr, entry).contains_key(ptr) && ptrs.insert(ptr, entry)[ptr] == entry,
{
    assert(ptrs.insert(ptr, entry).remove(ptr) =~= ptrs);
}

/// Whether recording `size` bytes against `key` leaves every counter in range.
pub open spec fn record_fits(by_key: Map<u64, Site>, key: u64, size: usize) -> bool {
    by_key.contains_key(key) ==> {
        let s = by_key[key];
        &&& s.live + size <= usize::MAX
        &&& s.total + size <= u64::MAX
        &&& s.live_blocks + 1 <= usize::MAX
    }
}

impl Sites {
    /// An empty table.
    pub fn new() -> (t: Sites)
        ensures
            t.by_key@ == Map::<u64, Site>::empty(),
            t.live_ptrs@ == Map::<usize, (usize, u64)>::empty(),
    {
        Sites { by_key: HashMap::new(), live_ptrs: HashMap::new() }
    }

    /// Whether [`Sites::record_large`] can take `size` bytes for the stack
    /// `frames` without a counter overflowing.
    pub fn can_record(&self, frames: &[usize], size: usize) -> (b: bool)
        ensures
            b == record_fits(self.by_key@, stack_key(frames@), size),
    {
        let key = key_of(frames);
        match self.by_key.get(&key) {
            Some(s) => s.live.checked_add(size).is_some() && s.total.checked_add(size as u64).is_some()
                && s.live_blocks.checked_add(1).is_some(),
            None => true,
        }
    }

    /// Attribute a live allocation of `size` bytes at `ptr` to the stack `frames`.
    pub fn record_large(&mut self, ptr: usize, size: usize, frames: Vec<usize>)
        requires
            record_fits(old(self).by_key@, stack_key(frames@), size),
        ensures
            ({
                let key = stack_key(frames@);
                let before = if old(self).by_key@.contains_key(key) {
                    tally(old(self).by_key@[key])
                } else {
                    (0usize, 0u64, 0usize, 0usize)
                };
                &&& final(self).by_key@.contains_key(key)
                &&& tally(final(self).by_key@[key]) == tally_recorded(before, size)
                &&& old(self).by_key@.contains_key(key) ==> final(self).by_key@[key].frames
                    == old(self).by_key@[key].frames
                &&& !old(self).by_key@.contains_key(key) ==> final(self).by_key@[key].frames@
                    == frames@
                &&& forall|k: u64| k != key ==> #[trigger] final(self).by_key@.contains_key(k)
                    == old(self).by_key@.contains_key(k)
                &&& forall|k: u64|
                    k != key && #[trigger] old(self).by_key@.contains_key(k) ==> final(self).by_key@[k]
                        == old(self).by_key@[k]
                &&& final(self).live_ptrs@ == old(self).live_ptrs@.insert(ptr, (size, key))
            }),
    {
        let key = key_of(frames.as_slice());
        let site = match self.by_key.remove(&key) {
            Some(mut site) => {
                site.live = site.live + size;
                site.total = site.total + size as u64;
                site.live_blocks = site.live_blocks + 1;
                if site.live > site.peak {
                    site.peak = site.live;
                }
                site
            },
            None => Site { frames, live: size, total: size as u64, live_blocks: 1, peak: size },
        };
        self.by_key.insert(key, site);
        self.live_ptrs.insert(ptr, (size, key));
    }

    /// Drop a freed large allocation's accounting: its pointer is forgotten,
    /// and its site's live bytes and blocks go down, saturating at zero.
    pub fn forget_large(&mut self, ptr: usize)
        ensures
            final(self).live_ptrs@ == old(self).live_ptrs@.remove(ptr),
            old(self).live_ptrs@.contains_key(ptr) && old(self).by_key@.contains_key(
                old(self).live_ptrs@[ptr].1,
            ) ==> ({
                let (size, key) = old(self).live_ptrs@[ptr];
                let s = old(self).by_key@[key];
                &&& final(self).by_key@ == old(self).by_key@.insert(key, Site {
                    live: tally_forgotten(tally(s), size).0,
                    live_blocks: tally_forgotten(tally(s), size).2,
                    ..s
                })
                &&& tally(final(self).by_key@[key]) == tally_forgotten(tally(s), size)
            }),
            !(old(self).live_ptrs@.contains_key(ptr) && old(self).by_key@.contains_key(
                old(self).live_ptrs@[ptr].1,
            )) ==> final(self).by_key@ == old(self).by_key@,
    {
        match self.live_ptrs.remove(&ptr) {
            Some((size, key)) => {
                match self.by_key.remove(&key) {
                    Some(mut site) => {
                        site.live = site.live.saturating_sub(size);
                        site.live_blocks = site.live_blocks.saturating_sub(1);
                        self.by_key.insert(key, site);
                        assert(self.by_key@ =~= old(self).by_key@.insert(key, self.by_key@[key]));
                    },
                    None => {},
                }
            },
            None => {},
        }
    }
}

/// One site's line in the report: its key and its accounting.
#[derive(Clone, Copy, Debug)]
pub struct SiteLine {
    pub key: u64,
    pub live: usize,
    pub total: u64,
    pub live_blocks: usize,
    pub peak: usize,
}

/// Whether `lines` is ranked by bytes currently live, largest first.
pub open spec fn ranked_by_live(lines: Seq<SiteLine>) -> bool {
    forall|i: int, j: int| 0 <= i < j < lines.len() ==> lines[i].live >= lines[j].live
}

/// What the report ranks a line by: its live bytes.
pub open spec fn live_key_fn() -> spec_fn(SiteLine) -> usize {
    |l: SiteLine| l.live
}

/// The report's ranking: every line, by bytes currently live, largest first;
/// lines that tie keep their order.
pub fn rank_by_live(lines: Vec<SiteLine>) -> (out: Vec<SiteLine>)
    ensures
        out@.to_multiset() == lines@.to_multiset(),
        out@.len() == lines@.len(),
        ranked_by_live(out@),
        keeps_ties(lines@, out@, live_key_fn()),
{
    broadcast use vstd::seq_lib::group_to_multiset_ensures;
    let mut out: Vec<SiteLine> = Vec::new();
    let mut i: usize = 0;
    assert(lines@.take(0) =~= out@);
    while i < lines.len()
        invariant
            0 <= i <= lines@.len(),
            out@.to_multiset() == lines@.take(i as int).to_multiset(),
            out@.len() == i,
            ranked_by_live(out@),
            keeps_ties(lines@.take(i as int), out@, live_key_fn()),
        decreases lines@.len() - i,
    {
        let x = lines[i];
        let mut p: usize = 0;
        while p < out.len() && out[p].live >= x.live
            invariant
                0 <= p <= out@.len(),
                forall|k: int| 0 <= k < p ==> out@[k].live >= x.live,
            decreases out@.len() - p,
        {
            p = p + 1;
        }
        let ghost before = out@;
        proof {
            assert forall|j: int| p <= j < before.len() implies live_key_fn()(#[trigger] before[j])
                != live_key_fn()(lines@[i as int]) by {
                assert(before[p as int].live < x.live);
                assert(before[p as int].live >= before[j].live);
            }
            lemma_keeps_ties_step(lines@, i as int, before, p as int, live_key_fn());
        }
        out.insert(p, x);
        proof {
            vstd::seq_lib::to_multiset_insert(before, p as int, x);
            assert(lines@.take(i as int + 1) == lines@.take(i as int).push(x));
            vstd::seq_lib::to_multiset_build(lines@.take(i as int), x);
            assert forall|a: int, b: int| 0 <= a < b < out@.len() implies out@[a].live
                >= out@[b].live by {
                if p < before.len() {
                    assert(before[p as int].live < x.live);
                }
            }
        }
        i = i + 1;
    }
    assert(lines@.take(lines@.len() as int) == lines@);
    out
}

/// How many of the ranked sites the report lists at most.
pub const REPORT_SITES: usize = 60;

/// The positions, among the first `n` ranked lines, that the report writes
/// out: those among the first `REPORT_SITES` that still have bytes live, in
/// rank order.
pub open spec fn report_picks(ranked: Seq<SiteLine>, n: int) -> Seq<usize>
    decreases n,
{
    if n <= 0 {
        Seq::empty()
    } else {
        let before = report_picks(ranked, n - 1);
        if n - 1 < REPORT_SITES && ranked[n - 1].live != 0 {
            before.push((n - 1) as usize)
        } else {
            before
        }
    }
}

/// Which of the ranked lines the report writes out, as positions in
/// `ranked`: the first `REPORT_SITES`, less those with nothing live.
pub fn report_lines(ranked: &[SiteLine]) -> (picks: Vec<usize>)
    ensures
        picks@ == report_picks(ranked@, ranked@.len() as int),
{
    let mut picks: Vec<usize> = Vec::new();
    let mut i: usize = 0;
    while i < ranked.len()
        invariant
            0 <= i <= ranked@.len(),
            picks@ == report_picks(ranked@, i as int),
        decreases ranked@.len() - i,
    {
        if i < REPORT_SITES && ranked[i].live != 0 {
            picks.push(i);
        }
        i = i + 1;
    }
    picks
}

// ── the sampler's marker file ────────────────────────────────────────────────

/// What the first line of the marker file asks the sampler for.
#[derive(Debug, PartialEq, Eq)]
pub enum MarkerCommand {
    /// `trim`: give free pages back to the kernel, once.
    Trim,
    /// `sites:<tag>`: write the attribution report, tagged.
    Sites(String),
    /// Anything else, copied into the row's label; empty when the file says nothing.
    Label(String),
}

/// The marker file's first line, trimmed.
pub open spec fn marker_line(text: Seq<char>) -> Seq<char> {
    crate::text::trim(split_by(text, seq!['\n'])[0])
}

/// What a marker file holding `text` asks for.
pub open spec fn marker_spec(text: Seq<char>) -> (Seq<char>, int) {
    let l = marker_line(text);
    if l == "trim"@ {
        (Seq::empty(), 0)
    } else if l.len() >= 6 && l.take(6) == "sites:"@ {
        (l.skip(6), 1)
    } else {
        (l, 2)
    }
}

/// The command a marker file holding `text` gives.
pub fn marker_command(text: &str) -> (cmd: MarkerCommand)
    ensures
        match cmd {
            MarkerCommand::Trim => marker_spec(text@).1 == 0,
            MarkerCommand::Sites(tag) => marker_spec(text@).1 == 1 && tag@ == marker_spec(text@).0,
            MarkerCommand::Label(l) => marker_spec(text@).1 == 2 && l@ == marker_spec(text@).0,
        },
{
    let cs = chars_of(text);
    let nl = ['\n'];
    let lines = split_chars(cs.as_slice(), &nl);
    assert(nl@ == seq!['\n']);
    proof {
        lemma_split_piece_fits(text@, seq!['\n']);
    }
    let first = &lines[0];
    let (a, b) = crate::text::trim_bounds(first.as_slice());
    let line = crate::text::slice_chars(first, a, b);
    assert(line@ == marker_line(text@));
    if chars_eq_lit(line.as_slice(), "trim") {
        return MarkerCommand::Trim;
    }
    let prefix = chars_of("sites:");
    let mut is_sites = line.len() >= prefix.len();
    let mut k: usize = 0;
    while is_sites && k < prefix.len()
        invariant
            0 <= k <= prefix@.len(),
            prefix@ == "sites:"@,
            is_sites ==> line@.len() >= prefix@.len(),
            is_sites ==> forall|j: int| 0 <= j < k ==> line@[j] == prefix@[j],
            !is_sites ==> !(line@.len() >= prefix@.len() && line@.take(prefix@.len() as int)
                == prefix@),
        decreases prefix@.len() - k,
    {
        if line[k] != prefix[k] {
            is_sites = false;
            assert(line@.take(prefix@.len() as int)[k as int] != prefix@[k as int]);
        }
        k = k + 1;
    }
    proof {
        reveal_strlit("sites:");
        if is_sites {
            assert(line@.take(6) == prefix@);
        }
    }
    if is_sites {
        let n = line.len();
        let tag = crate::text::slice_chars(&line, 6, n);
        MarkerCommand::Sites(crate::text::string_from_chars(tag.as_slice()))
    } else {
        MarkerCommand::Label(crate::text::string_from_chars(line.as_slice()))
    }
}

/// The label a row carries: `label` when it says something, remembered as the
/// last one; otherwise the last label again.
pub fn carry_label(label: String, last: &mut String) -> (out: String)
    ensures
        label@.len() > 0 ==> out@ == label@ && final(last)@ == label@,
        label@.len() == 0 ==> out@ == old(last)@ && final(last)@ == old(last)@,
{
    if label.as_str().is_empty() {
        last.clone()
    } else {
        *last = label.clone();
        label
    }
}

} // verus!
