//! The binary table: one three-byte record per codepoint plus a shared pool
//! of ASCII text, and the constant-time lookup over it.
use vstd::prelude::*;

verus! {

/// Offset that marks a codepoint with no known transliteration.
pub const UNKNOWN_OFFSET: usize = 0xFFFF;

/// Longest replacement that a record holds inline, in its payload bytes.
pub const MAX_INLINE: usize = 2;

/// Characters are ASCII when each is below 128.
pub open spec fn ascii_text(s: Seq<char>) -> bool {
    vstd::utf8::is_ascii_chars(s)
}

/// Number of whole records in a pointer table.
pub open spec fn record_count(ptrs: Seq<u8>) -> int {
    ptrs.len() as int / 3
}

/// Length byte of record `c`.
pub open spec fn rec_len(ptrs: Seq<u8>, c: int) -> int {
    ptrs[3 * c + 2] as int
}

/// The two payload bytes of record `c` read as a little-endian offset.
pub open spec fn rec_offset(ptrs: Seq<u8>, c: int) -> int {
    ptrs[3 * c] as int + 256 * (ptrs[3 * c + 1] as int)
}

/// What record `c` stands for: inline characters, a slice of the pool, or
/// nothing when the codepoint is unknown or the slice falls outside the pool.
pub open spec fn decode_record(ptrs: Seq<u8>, pool: Seq<char>, c: int) -> Option<Seq<char>> {
    let len = rec_len(ptrs, c);
    if len == 0 {
        Some(Seq::empty())
    } else if len == 1 {
        Some(seq![ptrs[3 * c] as char])
    } else if len == 2 {
        Some(seq![ptrs[3 * c] as char, ptrs[3 * c + 1] as char])
    } else {
        let off = rec_offset(ptrs, c);
        if off == UNKNOWN_OFFSET || off + len > pool.len() {
            None
        } else {
            Some(pool.subrange(off, off + len))
        }
    }
}

/// Transliteration of codepoint `c`; codepoints past the last record have none.
pub open spec fn decode_at(ptrs: Seq<u8>, pool: Seq<char>, c: int) -> Option<Seq<char>> {
    if 0 <= c < record_count(ptrs) {
        decode_record(ptrs, pool, c)
    } else {
        None
    }
}

/// Every inline record holds ASCII bytes only.
pub open spec fn inline_ascii(ptrs: Seq<u8>) -> bool {
    forall|c: int|
        0 <= c < record_count(ptrs) ==> {
            &&& rec_len(ptrs, c) >= 1 && rec_len(ptrs, c) <= 2 ==> #[trigger] ptrs[3 * c] < 128
            &&& rec_len(ptrs, c) == 2 ==> ptrs[3 * c + 1] < 128
        }
}

/// Every pair of ASCII characters `a, b`, in the order of `128 * a + b`.
pub open spec fn pair_text() -> Seq<char> {
    Seq::new(32768, |i: int| (if i % 2 == 0 { i / 256 } else { (i / 2) % 128 }) as u8 as char)
}

/// Why a pointer table and a pool do not form a table.
#[derive(Debug, Clone, Copy, PartialEq, Eq, Structural)]
pub enum TableError {
    /// The pointer bytes are not a whole number of records.
    PartialRecord,
    /// An inline record holds a byte outside ASCII.
    InlineNotAscii,
    /// The pool holds a character outside ASCII.
    PoolNotAscii,
    /// The pool is too long for its offsets to stay clear of the unknown marker.
    PoolTooLarge,
}

/// A pointer table and its pool, checked once and read-only afterwards.
///
/// Inline replacements are handed out as slices of `pairs`, which holds every
/// two-character ASCII string, so that a lookup never allocates.
pub struct Table {
    pointers: Vec<u8>,
    mapping: String,
    mapping_len: usize,
    pairs: String,
}

/// Relies on `String::push`: the character is added at the end.
#[verifier::external_body]
pub(crate) fn push_char(s: &mut String, c: char)
    ensures
        final(s)@ == old(s)@.push(c),
{
    s.push(c)
}

proof fn lemma_pair_index(a: int, b: int)
    requires
        0 <= a < 128,
        0 <= b < 128,
    ensures
        pair_text()[2 * (128 * a + b)] == a as u8 as char,
        pair_text()[2 * (128 * a + b) + 1] == b as u8 as char,
{
    let i = 2 * (128 * a + b);
    assert(i % 2 == 0 && i / 256 == a) by (nonlinear_arith)
        requires
            i == 2 * (128 * a + b),
            0 <= a < 128,
            0 <= b < 128,
    ;
    assert((i + 1) % 2 == 1 && ((i + 1) / 2) % 128 == b) by (nonlinear_arith)
        requires
            i == 2 * (128 * a + b),
            0 <= a < 128,
            0 <= b < 128,
    ;
}

fn build_pairs() -> (r: String)
    ensures
        r@ == pair_text(),
{
    let mut s = String::new();
    let mut a: u8 = 0;
    while a < 128
        invariant
            a <= 128,
            s@ == pair_text().take(256 * a),
        decreases 128 - a,
    {
        let mut b: u8 = 0;
        while b < 128
            invariant
                a < 128,
                b <= 128,
                s@ == pair_text().take(256 * a + 2 * b),
            decreases 128 - b,
        {
            proof {
                lemma_pair_index(a as int, b as int);
            }
            push_char(&mut s, a as char);
            push_char(&mut s, b as char);
            assert(s@ =~= pair_text().take(256 * a + 2 * (b + 1)));
            b = b + 1;
        }
        a = a + 1;
    }
    assert(s@ =~= pair_text());
    s
}

impl Table {
    /// The pointer bytes.
    pub closed spec fn records(&self) -> Seq<u8> {
        self.pointers@
    }

    /// The pool text.
    pub closed spec fn pool(&self) -> Seq<char> {
        self.mapping@
    }

    /// Transliteration of codepoint `c`.
    pub open spec fn decode(&self, c: int) -> Option<Seq<char>> {
        decode_at(self.records(), self.pool(), c)
    }

    #[verifier::type_invariant]
    closed spec fn well_formed(&self) -> bool {
        &&& self.pointers@.len() % 3 == 0
        &&& inline_ascii(self.pointers@)
        &&& ascii_text(self.mapping@)
        &&& self.mapping_len == self.mapping@.len()
        &&& self.mapping_len < UNKNOWN_OFFSET
        &&& self.pairs@ == pair_text()
    }

    /// The pointer bytes, three per codepoint.
    pub fn pointer_bytes(&self) -> (r: &Vec<u8>)
        ensures
            r@ == self.records(),
    {
        &self.pointers
    }

    /// The pool text.
    pub fn mapping_text(&self) -> (r: &str)
        ensures
            r@ == self.pool(),
    {
        self.mapping.as_str()
    }

    /// Checks a pointer table and a pool and joins them into a table.
    pub fn from_parts(pointers: Vec<u8>, mapping: String) -> (r: Result<Table, TableError>)
        ensures
            pointers@.len() % 3 != 0 <==> r == Err::<Table, TableError>(TableError::PartialRecord),
            pointers@.len() % 3 == 0 && !inline_ascii(pointers@) <==> r == Err::<
                Table,
                TableError,
            >(TableError::InlineNotAscii),
            pointers@.len() % 3 == 0 && inline_ascii(pointers@) && !ascii_text(mapping@) <==> r
                == Err::<Table, TableError>(TableError::PoolNotAscii),
            pointers@.len() % 3 == 0 && inline_ascii(pointers@) && ascii_text(mapping@)
                && mapping@.len() >= UNKNOWN_OFFSET <==> r == Err::<Table, TableError>(
                TableError::PoolTooLarge,
            ),
            r is Ok ==> r->Ok_0.records() == pointers@ && r->Ok_0.pool() == mapping@,
    {
        if pointers.len() % 3 != 0 {
            return Err(TableError::PartialRecord);
        }
        let n = pointers.len() / 3;
        let mut c: usize = 0;
        while c < n
            invariant
                n == record_count(pointers@),
                pointers@.len() == 3 * n,
                c <= n,
                forall|d: int|
                    0 <= d < c ==> {
                        &&& rec_len(pointers@, d) >= 1 && rec_len(pointers@, d) <= 2
                            ==> #[trigger] pointers@[3 * d] < 128
                        &&& rec_len(pointers@, d) == 2 ==> pointers@[3 * d + 1] < 128
                    },
            decreases n - c,
        {
            assert(3 * c + 2 < pointers.len());
            let len = pointers[3 * c + 2];
            if (len == 1 || len == 2) && pointers[3 * c] >= 128 {
                return Err(TableError::InlineNotAscii);
            }
            if len == 2 && pointers[3 * c + 1] >= 128 {
                return Err(TableError::InlineNotAscii);
            }
            c = c + 1;
        }
        if !mapping.is_ascii() {
            return Err(TableError::PoolNotAscii);
        }
        let mapping_len = mapping.as_str().unicode_len();
        if mapping_len >= UNKNOWN_OFFSET {
            return Err(TableError::PoolTooLarge);
        }
        let pairs = build_pairs();
        Ok(Table { pointers, mapping, mapping_len, pairs })
    }
}

/// Looks up the transliteration of one character: one record, then at most
/// one slice of the pool or of the inline pairs. `None` means unknown.
pub fn deunicode_char<'a>(table: &'a Table, ch: char) -> (r: Option<&'a str>)
    ensures
        r is Some <==> table.decode(ch as u32 as int) is Some,
        r is Some ==> r->0@ == table.decode(ch as u32 as int)->0,
        r is Some ==> ascii_text(r->0@),
{
    proof {
        use_type_invariant(table);
    }
    let c = ch as u32 as usize;
    if c >= table.pointers.len() / 3 {
        return None;
    }
    let b0 = table.pointers[3 * c];
    let b1 = table.pointers[3 * c + 1];
    let len = table.pointers[3 * c + 2];
    assert(3 * c + 2 < table.pointers@.len());
    if len as usize <= MAX_INLINE {
        if len == 0 {
            return Some(table.pairs.as_str().substring_ascii(0, 0));
        }
        proof {
            assert(b0 < 128);
            lemma_pair_index(b0 as int, 0);
            if len == 2 {
                assert(b1 < 128);
                lemma_pair_index(b0 as int, b1 as int);
            }
        }
        let second: u8 = if len == 2 { b1 } else { 0 };
        let start = 2 * (128 * b0 as usize + second as usize);
        let r = table.pairs.as_str().substring_ascii(start, start + len as usize);
        assert(r@ =~= table.decode(c as int)->0);
        Some(r)
    } else {
        let off = b0 as usize + 256 * b1 as usize;
        if off == UNKNOWN_OFFSET || off + len as usize > table.mapping_len {
            return None;
        }
        let r = table.mapping.as_str().substring_ascii(off, off + len as usize);
        proof {
            assert forall|i: int| 0 <= i < r@.len() implies '\0' <= #[trigger] r@[i] <= '\u{7f}' by {
                assert(r@[i] == table.mapping@[off + i]);
            }
        }
        Some(r)
    }
}

} // verus!
