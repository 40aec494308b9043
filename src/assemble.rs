//! Joining per-character transliterations into one ASCII string, dropping a
//! generated separator space where the next chunk already starts with one or
//! where the text ends.
use vstd::prelude::*;

use crate::table::{ascii_text, deunicode_char, Table};

verus! {

/// The transliteration of each character of `s`, in order.
pub open spec fn chunk_views(t: &Table, s: Seq<char>) -> Seq<Option<Seq<char>>> {
    Seq::new(s.len(), |i: int| t.decode(s[i] as u32 as int))
}

/// A chunk of more than one character that ends in a space.
pub open spec fn ends_with_separator(d: Seq<char>) -> bool {
    d.len() > 1 && d.last() == ' '
}

/// A known chunk whose first character is a space.
pub open spec fn starts_with_space(d: Option<Seq<char>>) -> bool {
    match d {
        Some(e) => e.len() > 0 && e[0] == ' ',
        None => false,
    }
}

/// Chunk `i` as it is handed out: its trailing separator goes when the
/// next chunk starts with a space or when it is the last chunk.
pub open spec fn emitted(chunks: Seq<Option<Seq<char>>>, i: int) -> Option<Seq<char>> {
    match chunks[i] {
        Some(d) => if ends_with_separator(d) && (i + 1 >= chunks.len() || starts_with_space(
            chunks[i + 1],
        )) {
            Some(d.drop_last())
        } else {
            Some(d)
        },
        None => None,
    }
}

/// A chunk, or the placeholder where the character is unknown.
pub open spec fn or_placeholder(o: Option<Seq<char>>, placeholder: Seq<char>) -> Seq<char> {
    match o {
        Some(d) => d,
        None => placeholder,
    }
}

/// The first `n` handed-out chunks, joined.
pub open spec fn joined(chunks: Seq<Option<Seq<char>>>, placeholder: Seq<char>, n: nat) -> Seq<
    char,
>
    decreases n,
{
    if n == 0 {
        Seq::empty()
    } else {
        joined(chunks, placeholder, (n - 1) as nat) + or_placeholder(
            emitted(chunks, n - 1),
            placeholder,
        )
    }
}

/// The whole transliteration of `s`.
pub open spec fn transliterated(t: &Table, s: Seq<char>, placeholder: Seq<char>) -> Seq<char> {
    joined(chunk_views(t, s), placeholder, s.len())
}

/// The placeholder used for unknown characters unless another is given.
pub open spec fn default_placeholder() -> Seq<char> {
    seq!['[', '?', ']']
}

/// The view of a chunk that may be unknown.
pub open spec fn chunk_view(o: Option<&str>) -> Option<Seq<char>> {
    match o {
        Some(d) => Some(d@),
        None => None,
    }
}

/// Transliterates a string character by character, one chunk per character.
/// It holds the next character's chunk ahead, as the space rule needs it.
pub struct AsciiCharsIter<'a> {
    table: &'a Table,
    chars: Vec<char>,
    pos: usize,
    next_char: Option<Option<&'a str>>,
}

impl<'a> AsciiCharsIter<'a> {
    /// The characters being transliterated.
    pub closed spec fn text(&self) -> Seq<char> {
        self.chars@
    }

    /// The chunk of each character.
    pub closed spec fn chunks(&self) -> Seq<Option<Seq<char>>> {
        chunk_views(self.table, self.chars@)
    }

    /// How many chunks have been handed out.
    pub closed spec fn produced(&self) -> nat {
        if self.next_char is Some {
            (self.pos - 1) as nat
        } else {
            self.chars@.len()
        }
    }

    /// The held chunk is that of the character before `pos`.
    pub closed spec fn wf(&self) -> bool {
        &&& self.pos <= self.chars@.len()
        &&& self.next_char is Some ==> self.pos >= 1 && chunk_view(self.next_char->0)
            == self.chunks()[self.pos - 1] && (self.next_char->0 is Some ==> ascii_text(
            self.next_char->0->0@,
        ))
        &&& self.next_char is None ==> self.pos == self.chars@.len()
    }

    /// Starts at the first character of `unicode_string`.
    pub fn new(table: &'a Table, unicode_string: &str) -> (r: Self)
        ensures
            r.wf(),
            r.text() == unicode_string@,
            r.chunks() == chunk_views(table, unicode_string@),
            r.produced() == 0,
    {
        let mut chars: Vec<char> = Vec::new();
        for c in it: unicode_string.chars()
            invariant
                chars@ == it.seq().take(it.index() as int),
                it.seq() == unicode_string@,
        {
            chars.push(c);
        }
        assert(chars@ =~= unicode_string@);
        if chars.len() == 0 {
            AsciiCharsIter { table, chars, pos: 0, next_char: None }
        } else {
            let first = deunicode_char(table, chars[0]);
            AsciiCharsIter { table, chars, pos: 1, next_char: Some(first) }
        }
    }

    /// Hands out the next chunk, `Some(None)` for an unknown character, or
    /// `None` once every character has had its chunk.
    pub fn next(&mut self) -> (r: Option<Option<&'a str>>)
        requires
            old(self).wf(),
        ensures
            final(self).wf(),
            final(self).text() == old(self).text(),
            final(self).chunks() == old(self).chunks(),
            r is Some && r->0 is Some ==> ascii_text(r->0->0@),
            old(self).produced() < old(self).text().len() ==> r is Some,
            old(self).produced() < old(self).text().len() ==> chunk_view(r->0) == emitted(
                old(self).chunks(),
                old(self).produced() as int,
            ),
            old(self).produced() < old(self).text().len() ==> final(self).produced()
                == old(self).produced() + 1,
            old(self).produced() >= old(self).text().len() ==> r is None,
            old(self).produced() >= old(self).text().len() ==> final(self).produced()
                == old(self).produced(),
    {
        let current = self.next_char;
        match current {
            None => None,
            Some(dch) => {
                if self.pos < self.chars.len() {
                    let c = self.chars[self.pos];
                    self.next_char = Some(deunicode_char(self.table, c));
                    self.pos = self.pos + 1;
                } else {
                    self.next_char = None;
                }
                match dch {
                    None => Some(None),
                    Some(d) => {
                        let n = d.unicode_len();
                        if n <= 1 || d.get_char(n - 1) != ' ' {
                            return Some(Some(d));
                        }
                        let space_or_end_next = match self.next_char {
                            None => true,
                            Some(None) => false,
                            Some(Some(e)) => e.unicode_len() > 0 && e.get_char(0) == ' ',
                        };
                        if space_or_end_next {
                            let t = d.substring_ascii(0, n - 1);
                            assert(ascii_text(t@)) by {
                                assert forall|i: int| 0 <= i < t@.len() implies '\0' <= #[trigger] t@[i]
                                    <= '\u{7f}' by {
                                    assert(t@[i] == d@[i]);
                                }
                            }
                            Some(Some(t))
                        } else {
                            Some(Some(d))
                        }
                    },
                }
            },
        }
    }
}

proof fn lemma_ascii_concat(a: Seq<char>, b: Seq<char>)
    requires
        ascii_text(b),
    ensures
        ascii_text(a) ==> ascii_text(a + b),
{
    if ascii_text(a) {
        assert forall|i: int| 0 <= i < (a + b).len() implies '\0' <= #[trigger] (a + b)[i]
            <= '\u{7f}' by {
            if i >= a.len() {
                assert((a + b)[i] == b[i - a.len()]);
            }
        }
    }
}

/// Printable ASCII, from space to tilde.
pub open spec fn printable(ch: char) -> bool {
    ' ' <= ch <= '~'
}

/// Where the table gives each printable ASCII character back as itself,
/// text made of such characters transliterates to itself, whatever the
/// placeholder.
pub proof fn lemma_printable_unchanged(t: &Table, s: Seq<char>, placeholder: Seq<char>)
    requires
        forall|ch: char| printable(ch) ==> #[trigger] t.decode(ch as u32 as int) == Some(seq![ch]),
        forall|i: int| 0 <= i < s.len() ==> printable(#[trigger] s[i]),
    ensures
        transliterated(t, s, placeholder) == s,
{
    let chunks = chunk_views(t, s);
    assert forall|i: int| 0 <= i < s.len() implies #[trigger] emitted(chunks, i) == Some(
        seq![s[i]],
    ) by {
        assert(printable(s[i]));
        assert(t.decode(s[i] as u32 as int) == Some(seq![s[i]]));
        assert(chunks[i] == Some(seq![s[i]]));
    }
    lemma_joined_single(chunks, s, placeholder, s.len());
    assert(s.take(s.len() as int) =~= s);
}

proof fn lemma_joined_single(
    chunks: Seq<Option<Seq<char>>>,
    s: Seq<char>,
    placeholder: Seq<char>,
    n: nat,
)
    requires
        n <= s.len(),
        forall|i: int| 0 <= i < s.len() ==> #[trigger] emitted(chunks, i) == Some(seq![s[i]]),
    ensures
        joined(chunks, placeholder, n) == s.take(n as int),
    decreases n,
{
    if n > 0 {
        lemma_joined_single(chunks, s, placeholder, (n - 1) as nat);
        assert(emitted(chunks, n - 1) == Some(seq![s[n - 1]]));
        assert(s.take(n as int) =~= s.take(n - 1) + seq![s[n - 1]]);
    } else {
        assert(s.take(0) =~= Seq::<char>::empty());
    }
}

/// Transliterates `s`, writing `custom_placeholder` for each character the
/// table does not know.
pub fn deunicode_with_tofu(table: &Table, s: &str, custom_placeholder: &str) -> (r: String)
    ensures
        r@ == transliterated(table, s@, custom_placeholder@),
        ascii_text(custom_placeholder@) ==> ascii_text(r@),
{
    let mut out = String::new();
    let mut it = AsciiCharsIter::new(table, s);
    loop
        invariant
            it.wf(),
            it.text() == s@,
            it.chunks() == chunk_views(table, s@),
            it.produced() <= s@.len(),
            out@ == joined(it.chunks(), custom_placeholder@, it.produced()),
            ascii_text(custom_placeholder@) ==> ascii_text(out@),
        ensures
            out@ == transliterated(table, s@, custom_placeholder@),
            ascii_text(custom_placeholder@) ==> ascii_text(out@),
        decreases s@.len() - it.produced(),
    {
        match it.next() {
            None => {
                break;
            },
            Some(Some(d)) => {
                let ghost prev = out@;
                out.append(d);
                proof {
                    lemma_ascii_concat(prev, d@);
                }
            },
            Some(None) => {
                let ghost prev = out@;
                out.append(custom_placeholder);
                proof {
                    if ascii_text(custom_placeholder@) {
                        lemma_ascii_concat(prev, custom_placeholder@);
                    }
                }
            },
        }
    }
    out
}

/// Transliterates `s`, writing `[?]` for each character the table does not
/// know.
pub fn deunicode(table: &Table, s: &str) -> (r: String)
    ensures
        r@ == transliterated(table, s@, default_placeholder()),
        ascii_text(r@),
{
    let placeholder = "[?]";
    proof {
        reveal_strlit("[?]");
        assert(placeholder@ =~= default_placeholder());
    }
    deunicode_with_tofu(table, s, placeholder)
}

/// Transliteration as methods of text.
pub trait AsciiChars: View<V = Seq<char>> {
    /// The chunks of this text, one per character.
    fn ascii_chars<'a>(&'a self, table: &'a Table) -> (r: AsciiCharsIter<'a>)
        ensures
            r.wf(),
            r.text() == self@,
            r.chunks() == chunk_views(table, self@),
            r.produced() == 0,
    ;

    /// This text transliterated, with `[?]` for unknown characters.
    fn to_ascii_lossy(&self, table: &Table) -> (r: String)
        ensures
            r@ == transliterated(table, self@, default_placeholder()),
    ;
}

impl AsciiChars for String {
    fn ascii_chars<'a>(&'a self, table: &'a Table) -> (r: AsciiCharsIter<'a>) {
        AsciiCharsIter::new(table, self.as_str())
    }

    fn to_ascii_lossy(&self, table: &Table) -> (r: String) {
        deunicode(table, self.as_str())
    }
}

impl AsciiChars for str {
    fn ascii_chars<'a>(&'a self, table: &'a Table) -> (r: AsciiCharsIter<'a>) {
        AsciiCharsIter::new(table, self)
    }

    fn to_ascii_lossy(&self, table: &Table) -> (r: String) {
        deunicode(table, self)
    }
}

} // verus!
