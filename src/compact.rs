//! Building the table: one record per codepoint, and a pool that holds each
//! distinct replacement longer than two characters once, where longer and more
//! frequent ones are placed first so that shorter ones are found inside them.
use vstd::prelude::*;

use crate::table::{
    ascii_text, decode_record, inline_ascii, push_char, record_count, rec_len, rec_offset, Table,
    TableError, MAX_INLINE, UNKNOWN_OFFSET,
};

verus! {

broadcast use vstd::seq_lib::group_to_multiset_ensures;

/// Longest replacement that a record's length byte can hold.
pub const MAX_REPLACEMENT: usize = 255;

/// Why a raw table cannot be compacted.
#[derive(Debug, Clone, Copy, PartialEq, Eq, Structural)]
pub enum CompactError {
    /// A replacement holds a character outside ASCII.
    NotAscii,
    /// A replacement is longer than a record's length byte can say.
    TooLong,
    /// The pool grew too long for two-byte offsets below the unknown marker.
    PoolTooLarge,
}

/// A raw table as text: `None` where a codepoint has no known transliteration.
pub open spec fn raw_view(raw: Seq<Option<String>>) -> Seq<Option<Seq<char>>> {
    Seq::new(
        raw.len(),
        |c: int|
            match raw[c] {
                Some(s) => Some(s@),
                None => None,
            },
    )
}

/// Every replacement is ASCII.
pub open spec fn entries_ascii(t: Seq<Option<Seq<char>>>) -> bool {
    forall|c: int| 0 <= c < t.len() && #[trigger] t[c] is Some ==> ascii_text(t[c]->0)
}

/// Every replacement fits a record's length byte.
pub open spec fn entries_fit(t: Seq<Option<Seq<char>>>) -> bool {
    forall|c: int| 0 <= c < t.len() && #[trigger] t[c] is Some ==> t[c]->0.len() <= MAX_REPLACEMENT
}

/// A replacement that is stored in the pool rather than inline.
pub open spec fn pooled(e: Option<Seq<char>>) -> bool {
    e is Some && e->0.len() > MAX_INLINE
}

/// Total length of the pooled replacements, counted with repetition.
pub open spec fn pooled_total(t: Seq<Option<Seq<char>>>) -> int
    decreases t.len(),
{
    if t.len() == 0 {
        0
    } else {
        pooled_total(t.drop_last()) + if pooled(t.last()) {
            t.last()->0.len() as int
        } else {
            0
        }
    }
}

/// Total length of some texts.
pub open spec fn text_total(texts: Seq<Vec<char>>) -> int
    decreases texts.len(),
{
    if texts.len() == 0 {
        0
    } else {
        text_total(texts.drop_last()) + texts.last()@.len()
    }
}

/// Total length of the first `n` texts that are marked.
pub open spec fn marked_total(texts: Seq<Vec<char>>, marked: Seq<bool>, n: int) -> int
    decreases n,
{
    if n <= 0 {
        0
    } else {
        marked_total(texts, marked, n - 1) + if marked[n - 1] {
            texts[n - 1]@.len() as int
        } else {
            0
        }
    }
}

proof fn lemma_marked_none(texts: Seq<Vec<char>>, marked: Seq<bool>, n: int)
    requires
        0 <= n <= marked.len(),
        forall|j: int| 0 <= j < n ==> !#[trigger] marked[j],
    ensures
        marked_total(texts, marked, n) == 0,
    decreases n,
{
    if n > 0 {
        lemma_marked_none(texts, marked, n - 1);
    }
}

proof fn lemma_marked_set(texts: Seq<Vec<char>>, marked: Seq<bool>, k: int, n: int)
    requires
        0 <= k < marked.len(),
        0 <= n <= marked.len(),
        !marked[k],
    ensures
        marked_total(texts, marked.update(k, true), n) == marked_total(texts, marked, n) + if k
            < n {
            texts[k]@.len() as int
        } else {
            0
        },
    decreases n,
{
    if n > 0 {
        lemma_marked_set(texts, marked, k, n - 1);
    }
}

proof fn lemma_marked_within(texts: Seq<Vec<char>>, marked: Seq<bool>, n: int)
    requires
        0 <= n <= texts.len(),
        n <= marked.len(),
    ensures
        marked_total(texts, marked, n) <= text_total(texts.take(n)),
    decreases n,
{
    if n > 0 {
        lemma_marked_within(texts, marked, n - 1);
        assert(texts.take(n).drop_last() =~= texts.take(n - 1));
    }
}

/// `pat` stands in `pool` from position `p` on.
pub open spec fn occurs_at(pool: Seq<char>, pat: Seq<char>, p: int) -> bool {
    0 <= p && p + pat.len() <= pool.len() && pool.subrange(p, p + pat.len()) == pat
}

/// Sort key of a candidate: its number of occurrences in steps of four,
/// negated; its length, negated; its first position in steps of four; its
/// first sixteen characters as two numbers; and its index, which grows with
/// its first position.
pub type CandidateKey = (i64, i64, u64, u64, u64, u64);

/// Order of candidates before placement: most frequent first, then longest,
/// then by first position in steps of four, then by text, then by first
/// position.
pub open spec fn key_le(a: CandidateKey, b: CandidateKey) -> bool {
    a.0 < b.0 || (a.0 == b.0 && (a.1 < b.1 || (a.1 == b.1 && (a.2 < b.2 || (a.2 == b.2 && (a.3
        < b.3 || (a.3 == b.3 && (a.4 < b.4 || (a.4 == b.4 && a.5 <= b.5)))))))))
}

/// Some key of `order` names candidate `k`.
pub open spec fn listed(order: Seq<CandidateKey>, k: int) -> bool {
    exists|j: int| 0 <= j < order.len() && #[trigger] order[j].5 == k as u64
}

/// Relies on `slice::sort`: the same keys, in ascending order of the tuple,
/// which compares field by field.
#[verifier::external_body]
fn sort_keys(v: &mut Vec<CandidateKey>)
    ensures
        final(v)@.to_multiset() == old(v)@.to_multiset(),
        forall|i: int, j: int|
            0 <= i < j < final(v)@.len() ==> key_le(#[trigger] final(v)@[i], #[trigger] final(v)@[j]),
{
    v.sort()
}

/// The characters of `s`.
pub(crate) fn chars_of(s: &str) -> (r: Vec<char>)
    ensures
        r@ == s@,
{
    let mut chars: Vec<char> = Vec::new();
    for c in it: s.chars()
        invariant
            chars@ == it.seq().take(it.index() as int),
            it.seq() == s@,
    {
        chars.push(c);
    }
    assert(chars@ =~= s@);
    chars
}

fn same_chars(a: &Vec<char>, b: &Vec<char>) -> (r: bool)
    ensures
        r == (a@ == b@),
{
    if a.len() != b.len() {
        return false;
    }
    let mut i: usize = 0;
    while i < a.len()
        invariant
            a@.len() == b@.len(),
            i <= a@.len(),
            forall|j: int| 0 <= j < i ==> a@[j] == b@[j],
        decreases a@.len() - i,
    {
        if a[i] != b[i] {
            return false;
        }
        i = i + 1;
    }
    assert(a@ =~= b@);
    true
}

/// The first sixteen characters of `s` as two numbers, a byte per character,
/// first character highest and zeros past the end, so that texts of one
/// length order by them as by their characters.
fn prefix_words(s: &Vec<char>) -> (u64, u64) {
    let mut hi: u64 = 0;
    let mut lo: u64 = 0;
    let mut i: usize = 0;
    while i < 16
        invariant
            i <= 16,
        decreases 16 - i,
    {
        let byte: u64 = if i < s.len() {
            (s[i] as u32 % 256) as u64
        } else {
            0
        };
        if i < 8 {
            hi = (hi % 0x100000000000000) * 256 + byte;
        } else {
            lo = (lo % 0x100000000000000) * 256 + byte;
        }
        i = i + 1;
    }
    (hi, lo)
}

/// Where a text starts its search among the slots of the grouping table.
fn slot_hash(s: &Vec<char>) -> u64 {
    let mut h: u64 = 0;
    let mut i: usize = 0;
    while i < s.len()
        invariant
            h < 4294967296,
        decreases s@.len() - i,
    {
        h = (h * 31 + s[i] as u32 as u64) % 4294967296;
        i = i + 1;
    }
    h
}

fn matches_at(pool: &Vec<char>, pat: &Vec<char>, p: usize) -> (r: bool)
    requires
        p + pat@.len() <= pool@.len(),
    ensures
        r == occurs_at(pool@, pat@, p as int),
{
    let mut i: usize = 0;
    while i < pat.len()
        invariant
            p + pat@.len() <= pool@.len(),
            i <= pat@.len(),
            forall|j: int| 0 <= j < i ==> pool@[p + j] == pat@[j],
        decreases pat@.len() - i,
    {
        assert(p + i < pool.len());
        if pool[p + i] != pat[i] {
            assert(pool@.subrange(p as int, p + pat@.len())[i as int] != pat@[i as int]);
            return false;
        }
        i = i + 1;
    }
    assert(pool@.subrange(p as int, p + pat@.len()) =~= pat@);
    true
}

/// First position at which `pat` stands in `pool`.
fn find(pool: &Vec<char>, pat: &Vec<char>) -> (r: Option<usize>)
    ensures
        r is Some ==> occurs_at(pool@, pat@, r->0 as int),
        r is Some ==> forall|q: int| 0 <= q < r->0 ==> !occurs_at(pool@, pat@, q),
        r is None ==> forall|q: int| !occurs_at(pool@, pat@, q),
{
    if pat.len() > pool.len() {
        return None;
    }
    if pat.len() == 0 {
        assert(pool@.subrange(0, 0) =~= pat@);
        return Some(0);
    }
    let last = pool.len() - pat.len();
    let mut p: usize = 0;
    while p <= last
        invariant
            last + pat@.len() == pool@.len(),
            pat@.len() > 0,
            last < pool.len(),
            p <= last + 1,
            forall|q: int| 0 <= q < p ==> !occurs_at(pool@, pat@, q),
        decreases last + 1 - p,
    {
        if matches_at(pool, pat, p) {
            return Some(p);
        }
        p = p + 1;
    }
    None
}

/// Lays the candidates into one pool in the given order: a candidate already
/// found in the pool keeps that place, any other is appended.
fn place(cands: &Vec<Vec<char>>, order: &Vec<CandidateKey>) -> (r: (Vec<char>, Vec<usize>))
    requires
        forall|k: int| 0 <= k < cands@.len() ==> #[trigger] listed(order@, k),
        forall|k: int| 0 <= k < cands@.len() ==> ascii_text(#[trigger] cands@[k]@),
    ensures
        r.1@.len() == cands@.len(),
        ascii_text(r.0@),
        r.0@.len() <= text_total(cands@),
        forall|k: int|
            0 <= k < cands@.len() ==> occurs_at(r.0@, #[trigger] cands@[k]@, r.1@[k] as int),
{
    let n = cands.len();
    let mut pool: Vec<char> = Vec::new();
    let mut offsets: Vec<usize> = Vec::new();
    let mut placed: Vec<bool> = Vec::new();
    let mut k: usize = 0;
    while k < n
        invariant
            n == cands@.len(),
            k <= n,
            offsets@.len() == k,
            placed@.len() == k,
            forall|j: int| 0 <= j < k ==> !#[trigger] placed@[j],
        decreases n - k,
    {
        offsets.push(0);
        placed.push(false);
        k = k + 1;
    }
    proof {
        lemma_marked_none(cands@, placed@, n as int);
    }
    let mut i: usize = 0;
    while i < order.len()
        invariant
            n == cands@.len(),
            offsets@.len() == n,
            placed@.len() == n,
            pool@.len() <= marked_total(cands@, placed@, n as int),
            i <= order@.len(),
            ascii_text(pool@),
            forall|k: int| 0 <= k < n ==> ascii_text(#[trigger] cands@[k]@),
            forall|j: int|
                0 <= j < i && (order@[j].5 as int) < n ==> #[trigger] placed@[order@[j].5 as int],
            forall|k: int|
                0 <= k < n && #[trigger] placed@[k] ==> occurs_at(
                    pool@,
                    cands@[k]@,
                    offsets@[k] as int,
                ),
        decreases order@.len() - i,
    {
        let key = order[i].5;
        if key < n as u64 {
            let k = key as usize;
            if !placed[k] {
                let ghost before = pool@;
                let ghost was = placed@;
                match find(&pool, &cands[k]) {
                    Some(p) => {
                        offsets.set(k, p);
                    },
                    None => {
                        offsets.set(k, pool.len());
                        let cand = &cands[k];
                        let mut m: usize = 0;
                        while m < cand.len()
                            invariant
                                m <= cand@.len(),
                                pool@ == before + cand@.take(m as int),
                                ascii_text(before),
                                ascii_text(cand@),
                            decreases cand@.len() - m,
                        {
                            pool.push(cand[m]);
                            assert(cand@.take(m + 1) =~= cand@.take(m as int).push(cand@[m as int]));
                            m = m + 1;
                        }
                        assert(cand@.take(m as int) =~= cand@);
                        assert(pool@.subrange(before.len() as int, pool@.len() as int) =~= cand@);
                    },
                }
                placed.set(k, true);
                proof {
                    lemma_marked_set(cands@, was, k as int, n as int);
                }
                assert forall|j: int|
                    0 <= j < n && #[trigger] placed@[j] implies occurs_at(
                    pool@,
                    cands@[j]@,
                    offsets@[j] as int,
                ) by {
                    if j != k {
                        let o = offsets@[j] as int;
                        assert(pool@.subrange(o, o + cands@[j]@.len()) =~= before.subrange(
                            o,
                            o + cands@[j]@.len(),
                        ));
                    }
                }
            }
        }
        i = i + 1;
    }
    assert forall|k: int| 0 <= k < n implies occurs_at(
        pool@,
        #[trigger] cands@[k]@,
        offsets@[k] as int,
    ) by {
        assert(listed(order@, k));
        let j = choose|j: int| 0 <= j < order@.len() && #[trigger] order@[j].5 == k as u64;
        assert(placed@[order@[j].5 as int]);
    }
    proof {
        lemma_marked_within(cands@, placed@, n as int);
        assert(cands@.take(n as int) =~= cands@);
    }
    (pool, offsets)
}

/// The distinct pooled replacements of a raw table: each text once, how often
/// it occurs, where it first occurs, and for each codepoint which text is its.
struct Candidates {
    texts: Vec<Vec<char>>,
    counts: Vec<usize>,
    firsts: Vec<usize>,
    of: Vec<usize>,
}

fn group(raw: &Vec<Option<String>>) -> (r: Candidates)
    requires
        entries_ascii(raw_view(raw@)),
        entries_fit(raw_view(raw@)),
        3 * raw@.len() + 3 <= usize::MAX,
    ensures
        r.texts@.len() == r.counts@.len(),
        r.texts@.len() == r.firsts@.len(),
        r.texts@.len() <= raw@.len(),
        r.of@.len() == raw@.len(),
        text_total(r.texts@) <= pooled_total(raw_view(raw@)),
        forall|k: int| 0 <= k < r.texts@.len() ==> ascii_text(#[trigger] r.texts@[k]@),
        forall|k: int| 0 <= k < r.texts@.len() ==> #[trigger] r.texts@[k]@.len() <= MAX_REPLACEMENT,
        forall|k: int| 0 <= k < r.texts@.len() ==> #[trigger] r.counts@[k] <= raw@.len(),
        forall|c: int|
            0 <= c < raw@.len() && pooled(#[trigger] raw_view(raw@)[c]) ==> r.of@[c]
                < r.texts@.len() && r.texts@[r.of@[c] as int]@ == raw_view(raw@)[c]->0,
{
    let size = 2 * raw.len() + 1;
    let mut slots: Vec<usize> = Vec::new();
    let mut i: usize = 0;
    while i < size
        invariant
            slots@.len() == i,
            i <= size,
        decreases size - i,
    {
        slots.push(0);
        i = i + 1;
    }
    let mut texts: Vec<Vec<char>> = Vec::new();
    let mut counts: Vec<usize> = Vec::new();
    let mut firsts: Vec<usize> = Vec::new();
    let mut of: Vec<usize> = Vec::new();
    let mut c: usize = 0;
    while c < raw.len()
        invariant
            entries_ascii(raw_view(raw@)),
            entries_fit(raw_view(raw@)),
            3 * raw@.len() + 3 <= usize::MAX,
            size == 2 * raw@.len() + 1,
            slots@.len() == size,
            c <= raw@.len(),
            texts@.len() == counts@.len(),
            texts@.len() == firsts@.len(),
            texts@.len() <= c,
            of@.len() == c,
            text_total(texts@) <= pooled_total(raw_view(raw@).take(c as int)),
            forall|k: int| 0 <= k < texts@.len() ==> ascii_text(#[trigger] texts@[k]@),
            forall|k: int| 0 <= k < texts@.len() ==> #[trigger] texts@[k]@.len() <= MAX_REPLACEMENT,
            forall|k: int| 0 <= k < texts@.len() ==> #[trigger] counts@[k] <= c,
            forall|d: int|
                0 <= d < c && pooled(#[trigger] raw_view(raw@)[d]) ==> of@[d] < texts@.len()
                    && texts@[of@[d] as int]@ == raw_view(raw@)[d]->0,
        decreases raw@.len() - c,
    {
        let mut id: usize = 0;
        let ghost texts_before = texts@;
        proof {
            assert(raw_view(raw@).take(c + 1).drop_last() =~= raw_view(raw@).take(c as int));
        }
        match &raw[c] {
            Some(s) => {
                let text = chars_of(s.as_str());
                assert(raw_view(raw@)[c as int] is Some);
                if text.len() > MAX_INLINE {
                    let h = slot_hash(&text);
                    let mut at = (h % size as u64) as usize;
                    let mut steps: usize = 0;
                    let mut found: Option<usize> = None;
                    let mut free: Option<usize> = None;
                    let mut searching = true;
                    while searching && steps < size
                        invariant
                            slots@.len() == size,
                            at < size,
                            steps <= size,
                            found is Some ==> found->0 < texts@.len() && texts@[found->0 as int]@
                                == text@,
                            free is Some ==> free->0 < size,
                        decreases size - steps,
                    {
                        let slot = slots[at];
                        if slot == 0 {
                            free = Some(at);
                            searching = false;
                        } else if slot - 1 < texts.len() && same_chars(&texts[slot - 1], &text) {
                            found = Some(slot - 1);
                            searching = false;
                        }
                        at = (at + 1) % size;
                        steps = steps + 1;
                    }
                    match found {
                        Some(k) => {
                            counts.set(k, counts[k] + 1);
                            id = k;
                        },
                        None => {
                            id = texts.len();
                            if let Some(at) = free {
                                slots.set(at, id + 1);
                            }
                            texts.push(text);
                            counts.push(1);
                            firsts.push(c);
                            assert(texts@.drop_last() =~= texts_before);
                        },
                    }
                }
            },
            None => {},
        }
        of.push(id);
        c = c + 1;
    }
    assert(raw_view(raw@).take(c as int) =~= raw_view(raw@));
    Candidates { texts, counts, firsts, of }
}

proof fn lemma_same_record(a: Seq<u8>, i: int, b: Seq<u8>, j: int, pool: Seq<char>)
    requires
        0 <= i,
        0 <= j,
        3 * i + 3 <= a.len(),
        3 * j + 3 <= b.len(),
        a[3 * i] == b[3 * j],
        a[3 * i + 1] == b[3 * j + 1],
        a[3 * i + 2] == b[3 * j + 2],
    ensures
        decode_record(a, pool, i) == decode_record(b, pool, j),
        rec_len(a, i) == rec_len(b, j),
        rec_offset(a, i) == rec_offset(b, j),
{
}

/// The record of one raw entry; `offset` is where a pooled entry stands.
fn encode_entry(entry: &Option<String>, offset: usize, Ghost(pool): Ghost<Seq<char>>) -> (r: (
    u8,
    u8,
    u8,
))
    requires
        entry is Some ==> ascii_text(entry->0@) && entry->0@.len() <= MAX_REPLACEMENT,
        pool.len() < UNKNOWN_OFFSET,
        entry is Some && entry->0@.len() > MAX_INLINE ==> occurs_at(
            pool,
            entry->0@,
            offset as int,
        ),
    ensures
        ({
            let rec = seq![r.0, r.1, r.2];
            &&& decode_record(rec, pool, 0) == (match entry {
                Some(s) => Some(s@),
                None => None,
            })
            &&& rec_len(rec, 0) >= 1 && rec_len(rec, 0) <= 2 ==> r.0 < 128
            &&& rec_len(rec, 0) == 2 ==> r.1 < 128
            &&& entry is Some && entry->0@.len() > MAX_INLINE ==> rec_len(rec, 0)
                == entry->0@.len() && occurs_at(pool, entry->0@, rec_offset(rec, 0))
        }),
{
    match entry {
        None => {
            let r = (0xFFu8, 0xFFu8, 3u8);
            assert(rec_offset(seq![r.0, r.1, r.2], 0) == UNKNOWN_OFFSET);
            r
        },
        Some(s) => {
            let len = s.as_str().unicode_len();
            if len <= MAX_INLINE {
                let mut first: u8 = 0;
                let mut second: u8 = 0;
                if len >= 1 {
                    let ch = s.as_str().get_char(0);
                    assert(s@[0] == ch);
                    first = ch as u32 as u8;
                }
                if len == 2 {
                    let ch = s.as_str().get_char(1);
                    assert(s@[1] == ch);
                    second = ch as u32 as u8;
                }
                let r = (first, second, len as u8);
                assert(decode_record(seq![r.0, r.1, r.2], pool, 0) =~= Some(s@));
                r
            } else {
                let r = ((offset % 256) as u8, (offset / 256) as u8, len as u8);
                assert(rec_offset(seq![r.0, r.1, r.2], 0) == offset);
                r
            }
        },
    }
}

/// Compacts a raw table, one entry per codepoint from zero on, into a table
/// that gives every codepoint back its entry.
pub fn compact(raw: &Vec<Option<String>>) -> (r: Result<Table, CompactError>)
    requires
        3 * raw@.len() + 3 <= usize::MAX,
    ensures
        !entries_ascii(raw_view(raw@)) <==> r == Err::<Table, CompactError>(CompactError::NotAscii),
        entries_ascii(raw_view(raw@)) && !entries_fit(raw_view(raw@)) <==> r == Err::<
            Table,
            CompactError,
        >(CompactError::TooLong),
        entries_ascii(raw_view(raw@)) && entries_fit(raw_view(raw@)) && pooled_total(
            raw_view(raw@),
        ) < UNKNOWN_OFFSET ==> r is Ok,
        r is Ok ==> record_count(r->Ok_0.records()) == raw@.len(),
        r is Ok ==> forall|c: int|
            0 <= c < raw@.len() ==> #[trigger] r->Ok_0.decode(c) == raw_view(raw@)[c],
        r is Ok ==> forall|c: int|
            0 <= c < raw@.len() && pooled(#[trigger] raw_view(raw@)[c]) ==> rec_len(
                r->Ok_0.records(),
                c,
            ) == raw_view(raw@)[c]->0.len() && occurs_at(
                r->Ok_0.pool(),
                raw_view(raw@)[c]->0,
                rec_offset(r->Ok_0.records(), c),
            ),
{
    let ghost rv = raw_view(raw@);
    let mut c: usize = 0;
    while c < raw.len()
        invariant
            rv == raw_view(raw@),
            c <= raw@.len(),
            forall|d: int| 0 <= d < c && #[trigger] rv[d] is Some ==> ascii_text(rv[d]->0),
        decreases raw@.len() - c,
    {
        match &raw[c] {
            Some(s) => {
                if !s.is_ascii() {
                    assert(rv[c as int] is Some);
                    return Err(CompactError::NotAscii);
                }
            },
            None => {},
        }
        c = c + 1;
    }
    let mut c: usize = 0;
    while c < raw.len()
        invariant
            rv == raw_view(raw@),
            entries_ascii(rv),
            c <= raw@.len(),
            forall|d: int|
                0 <= d < c && #[trigger] rv[d] is Some ==> rv[d]->0.len() <= MAX_REPLACEMENT,
        decreases raw@.len() - c,
    {
        match &raw[c] {
            Some(s) => {
                if s.as_str().unicode_len() > MAX_REPLACEMENT {
                    assert(rv[c as int] is Some);
                    return Err(CompactError::TooLong);
                }
            },
            None => {},
        }
        c = c + 1;
    }
    let cands = group(raw);
    let n = cands.texts.len();
    let mut keys: Vec<CandidateKey> = Vec::new();
    let mut k: usize = 0;
    while k < n
        invariant
            n == cands.texts@.len(),
            n == cands.counts@.len(),
            n == cands.firsts@.len(),
            k <= n,
            3 * raw@.len() + 3 <= usize::MAX,
            forall|j: int| 0 <= j < n ==> #[trigger] cands.texts@[j]@.len() <= MAX_REPLACEMENT,
            forall|j: int| 0 <= j < n ==> #[trigger] cands.counts@[j] <= raw@.len(),
            keys@.len() == k,
            forall|j: int| 0 <= j < k ==> #[trigger] keys@[j].5 == j as u64,
        decreases n - k,
    {
        assert(cands.counts@[k as int] <= raw@.len());
        assert(cands.texts@[k as int]@.len() <= MAX_REPLACEMENT);
        let popularity = (cands.counts[k] / 4) as i64;
        let length = cands.texts[k].len() as i64;
        let (hi, lo) = prefix_words(&cands.texts[k]);
        keys.push((0 - popularity, 0 - length, (cands.firsts[k] / 4) as u64, hi, lo, k as u64));
        k = k + 1;
    }
    let ghost unsorted = keys@;
    sort_keys(&mut keys);
    assert forall|k: int| 0 <= k < n implies #[trigger] listed(keys@, k) by {
        assert(unsorted[k].5 == k as u64);
        assert(unsorted.contains(unsorted[k]));
        assert(keys@.to_multiset().count(unsorted[k]) > 0);
        assert(keys@.contains(unsorted[k]));
        let j = choose|j: int| 0 <= j < keys@.len() && keys@[j] == unsorted[k];
        assert(keys@[j].5 == k as u64);
    }
    let (pool, offsets) = place(&cands.texts, &keys);
    assert(pool@.len() <= text_total(cands.texts@));
    assert(text_total(cands.texts@) <= pooled_total(rv));
    if pool.len() >= UNKNOWN_OFFSET {
        return Err(CompactError::PoolTooLarge);
    }
    let mut records: Vec<u8> = Vec::new();
    let mut c: usize = 0;
    while c < raw.len()
        invariant
            rv == raw_view(raw@),
            entries_ascii(rv),
            entries_fit(rv),
            3 * raw@.len() + 3 <= usize::MAX,
            pool@.len() < UNKNOWN_OFFSET,
            c <= raw@.len(),
            records@.len() == 3 * c,
            offsets@.len() == cands.texts@.len(),
            cands.of@.len() == raw@.len(),
            forall|k: int|
                0 <= k < cands.texts@.len() ==> occurs_at(
                    pool@,
                    #[trigger] cands.texts@[k]@,
                    offsets@[k] as int,
                ),
            forall|d: int|
                0 <= d < raw@.len() && pooled(#[trigger] rv[d]) ==> cands.of@[d]
                    < cands.texts@.len() && cands.texts@[cands.of@[d] as int]@ == rv[d]->0,
            forall|d: int| 0 <= d < c ==> #[trigger] decode_record(records@, pool@, d) == rv[d],
            forall|d: int|
                0 <= d < c ==> {
                    &&& rec_len(records@, d) >= 1 && rec_len(records@, d) <= 2 ==> #[trigger] records@[3 * d] < 128
                    &&& rec_len(records@, d) == 2 ==> records@[3 * d + 1] < 128
                },
            forall|d: int|
                0 <= d < c && pooled(#[trigger] rv[d]) ==> rec_len(records@, d) == rv[d]->0.len()
                    && occurs_at(pool@, rv[d]->0, rec_offset(records@, d)),
        decreases raw@.len() - c,
    {
        let ghost before = records@;
        let offset = match &raw[c] {
            Some(s) => if s.as_str().unicode_len() > MAX_INLINE {
                assert(rv[c as int] == Some(s@));
                assert(pooled(rv[c as int]));
                offsets[cands.of[c]]
            } else {
                0
            },
            None => 0,
        };
        proof {
            if pooled(rv[c as int]) {
                assert(occurs_at(pool@, cands.texts@[cands.of@[c as int] as int]@, offset as int));
            }
        }
        let (b0, b1, b2) = encode_entry(&raw[c], offset, Ghost(pool@));
        records.push(b0);
        records.push(b1);
        records.push(b2);
        proof {
            let rec = seq![b0, b1, b2];
            assert(records@ =~= before + rec);
            lemma_same_record(records@, c as int, rec, 0, pool@);
            assert forall|d: int| 0 <= d < c implies #[trigger] decode_record(records@, pool@, d)
                == rv[d] && (rec_len(records@, d) >= 1 && rec_len(records@, d) <= 2
                ==> records@[3 * d] < 128) && (rec_len(records@, d) == 2 ==> records@[3 * d + 1]
                < 128) && (pooled(rv[d]) ==> rec_len(records@, d) == rv[d]->0.len() && occurs_at(
                pool@,
                rv[d]->0,
                rec_offset(records@, d),
            )) by {
                assert(decode_record(before, pool@, d) == rv[d]);
                lemma_same_record(records@, d, before, d, pool@);
            }
        }
        c = c + 1;
    }
    let mut mapping = String::new();
    let mut m: usize = 0;
    while m < pool.len()
        invariant
            m <= pool@.len(),
            mapping@ == pool@.take(m as int),
        decreases pool@.len() - m,
    {
        push_char(&mut mapping, pool[m]);
        assert(pool@.take(m + 1) =~= pool@.take(m as int).push(pool@[m as int]));
        m = m + 1;
    }
    assert(pool@.take(m as int) =~= pool@);
    assert(records@.len() / 3 == raw@.len());
    assert(records@.len() % 3 == 0);
    assert(inline_ascii(records@));
    assert(ascii_text(mapping@));
    assert(mapping@.len() < UNKNOWN_OFFSET);
    match Table::from_parts(records, mapping) {
        Ok(t) => Ok(t),
        Err(e) => {
            // The records and the pool pass every check of `from_parts`.
            assert(match e {
                TableError::PartialRecord => false,
                TableError::InlineNotAscii => false,
                TableError::PoolNotAscii => false,
                TableError::PoolTooLarge => false,
            });
            Err(CompactError::PoolTooLarge)
        },
    }
}


/// A table that gives back each entry of a raw table in which every ASCII
/// character stands for itself maps every ASCII character to itself.
pub proof fn lemma_ascii_identity(t: &Table, raw: Seq<Option<Seq<char>>>)
    requires
        raw.len() >= 128,
        forall|c: int| 0 <= c < 128 ==> #[trigger] raw[c] == Some(seq![c as u8 as char]),
        forall|c: int| 0 <= c < raw.len() ==> #[trigger] t.decode(c) == raw[c],
    ensures
        forall|ch: char| (ch as u32) < 128 ==> #[trigger] t.decode(ch as u32 as int) == Some(
            seq![ch],
        ),
{
    assert forall|ch: char| (ch as u32) < 128 implies #[trigger] t.decode(ch as u32 as int)
        == Some(seq![ch]) by {
        let c = ch as u32 as int;
        assert(raw[c] == Some(seq![c as u8 as char]));
        assert(t.decode(c) == raw[c]);
        assert(c as u8 as char == ch);
    }
}
} // verus!
