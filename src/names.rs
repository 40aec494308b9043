//! Gathering one replacement per codepoint: curated entries, and emoji names
//! from their data sets, the shortest name winning.
use vstd::prelude::*;

use crate::compact::raw_view;
use crate::table::push_char;

verus! {

/// Underscores read as spaces.
pub open spec fn spaced(s: Seq<char>) -> Seq<char> {
    s.map_values(|c: char| if c == '_' { ' ' } else { c })
}

/// An emoji's short name as a replacement: underscores become spaces, and a
/// space follows to keep it apart from what comes next.
pub fn emojiname(s: &str) -> (r: String)
    ensures
        r@ == spaced(s@).push(' '),
{
    let mut out = String::new();
    for c in it: s.chars()
        invariant
            it.seq() == s@,
            out@ == spaced(it.seq().take(it.index() as int)),
    {
        let d = if c == '_' {
            ' '
        } else {
            c
        };
        proof {
            assert(spaced(it.seq().take(it.index() + 1)) =~= spaced(
                it.seq().take(it.index() as int),
            ).push(d));
        }
        push_char(&mut out, d);
    }
    assert(s@.take(s@.len() as int) =~= s@);
    push_char(&mut out, ' ');
    out
}

/// The marks that older curated data uses for an unknown codepoint.
pub open spec fn is_unknown_mark(s: Seq<char>) -> bool {
    s == seq!['[', '?', ']'] || s == seq!['[', '?', ']', ' ']
}

fn unknown_mark(s: &str) -> (r: bool)
    ensures
        r == is_unknown_mark(s@),
{
    let n = s.unicode_len();
    if n != 3 && n != 4 {
        return false;
    }
    let r = s.get_char(0) == '[' && s.get_char(1) == '?' && s.get_char(2) == ']' && (n == 3
        || s.get_char(3) == ' ');
    if r {
        if n == 3 {
            assert(s@ =~= seq!['[', '?', ']']);
        } else {
            assert(s@ =~= seq!['[', '?', ']', ' ']);
        }
    }
    r
}

/// A curated entry as a raw table entry.
pub open spec fn base_entry(s: Seq<char>) -> Option<Seq<char>> {
    if is_unknown_mark(s) {
        None
    } else {
        Some(s)
    }
}

/// `t` grown with empty entries until it has an entry at `ch`.
pub open spec fn padded(t: Seq<Option<Seq<char>>>, ch: int) -> Seq<Option<Seq<char>>> {
    if ch < t.len() {
        t
    } else {
        t + Seq::new((ch + 1 - t.len()) as nat, |i: int| Some(Seq::<char>::empty()))
    }
}

/// A name replaces an entry that is unknown, empty or longer.
pub open spec fn name_wins(cur: Option<Seq<char>>, name: Seq<char>) -> bool {
    match cur {
        Some(e) => e.len() == 0 || name.len() < e.len(),
        None => true,
    }
}

/// `t` after offering `name` for codepoint `ch`.
pub open spec fn merge_one(t: Seq<Option<Seq<char>>>, ch: int, name: Seq<char>) -> Seq<
    Option<Seq<char>>,
> {
    let p = padded(t, ch);
    if name_wins(p[ch], name) {
        p.update(ch, Some(name))
    } else {
        p
    }
}

/// `t` after offering each name in turn.
pub open spec fn merged(t: Seq<Option<Seq<char>>>, names: Seq<(usize, Seq<char>)>) -> Seq<
    Option<Seq<char>>,
>
    decreases names.len(),
{
    if names.len() == 0 {
        t
    } else {
        let rest = merged(t, names.drop_last());
        merge_one(rest, names.last().0 as int, names.last().1)
    }
}

/// The curated entries as raw table entries.
pub open spec fn base_view(base: Seq<String>) -> Seq<Option<Seq<char>>> {
    Seq::new(base.len(), |i: int| base_entry(base[i]@))
}

/// The offered names as text.
pub open spec fn names_view(names: Seq<(usize, String)>) -> Seq<(usize, Seq<char>)> {
    Seq::new(names.len(), |i: int| (names[i].0, names[i].1@))
}

/// Builds a raw table from curated entries, one per codepoint, and names
/// offered for single codepoints: unknown marks become unknown entries, the
/// table grows with empty entries to reach a named codepoint, and a name is
/// taken where the entry is unknown, empty or longer.
pub fn merge_names(base: &Vec<String>, names: &Vec<(usize, String)>) -> (r: Vec<Option<String>>)
    requires
        forall|i: int| 0 <= i < names@.len() ==> (#[trigger] names@[i]).0 < usize::MAX,
    ensures
        raw_view(r@) == merged(base_view(base@), names_view(names@)),
{
    let mut out: Vec<Option<String>> = Vec::new();
    let mut i: usize = 0;
    while i < base.len()
        invariant
            i <= base@.len(),
            out@.len() == i,
            raw_view(out@) == base_view(base@).take(i as int),
        decreases base@.len() - i,
    {
        let entry = if unknown_mark(base[i].as_str()) {
            None
        } else {
            Some(base[i].clone())
        };
        let ghost prev = out@;
        out.push(entry);
        assert(out@[i as int] == entry);
        assert forall|k: int| 0 <= k < i + 1 implies raw_view(out@)[k] == base_view(base@).take(
            i + 1,
        )[k] by {
            if k < i {
                assert(out@[k] == prev[k]);
                assert(raw_view(prev)[k] == base_view(base@).take(i as int)[k]);
            }
        }
        assert(raw_view(out@) =~= base_view(base@).take(i + 1));
        i = i + 1;
    }
    assert(base_view(base@).take(i as int) =~= base_view(base@));
    let ghost nv = names_view(names@);
    let mut j: usize = 0;
    while j < names.len()
        invariant
            nv == names_view(names@),
            j <= names@.len(),
            forall|i: int| 0 <= i < names@.len() ==> (#[trigger] names@[i]).0 < usize::MAX,
            raw_view(out@) == merged(base_view(base@), nv.take(j as int)),
        decreases names@.len() - j,
    {
        let ch = names[j].0;
        let name = &names[j].1;
        let ghost t0 = raw_view(out@);
        while out.len() <= ch
            invariant
                ch < usize::MAX,
                t0.len() <= out@.len(),
                out@.len() <= t0.len() || out@.len() <= ch + 1,
                raw_view(out@) == t0 + Seq::new(
                    (out@.len() - t0.len()) as nat,
                    |i: int| Some(Seq::<char>::empty()),
                ),
            decreases ch + 1 - out@.len(),
        {
            let ghost prev = out@;
            let empty = String::new();
            out.push(Some(empty));
            assert(raw_view(out@)[prev.len() as int] == Some(Seq::<char>::empty()));
            assert forall|k: int| 0 <= k < out@.len() - 1 implies raw_view(out@)[k] == raw_view(
                prev,
            )[k] by {
                assert(out@[k] == prev[k]);
            }
            assert(raw_view(out@) =~= raw_view(prev).push(Some(Seq::<char>::empty())));
            assert(raw_view(out@) =~= t0 + Seq::new(
                (out@.len() - t0.len()) as nat,
                |i: int| Some(Seq::<char>::empty()),
            ));
        }
        assert(raw_view(out@) =~= padded(t0, ch as int));
        let wins = match &out[ch] {
            None => true,
            Some(cur) => {
                let n = cur.as_str().unicode_len();
                n == 0 || name.as_str().unicode_len() < n
            },
        };
        if wins {
            out.set(ch, Some(name.clone()));
        }
        assert(nv.take(j + 1).drop_last() =~= nv.take(j as int));
        assert(raw_view(out@) =~= merge_one(t0, ch as int, name@));
        j = j + 1;
    }
    assert(nv.take(j as int) =~= nv);
    out
}


/// Value of a hexadecimal digit, or `None` for any other character.
pub open spec fn hex_digit(c: char) -> Option<int> {
    if '0' <= c <= '9' {
        Some(c as int - '0' as int)
    } else if 'a' <= c <= 'f' {
        Some(c as int - 'a' as int + 10)
    } else if 'A' <= c <= 'F' {
        Some(c as int - 'A' as int + 10)
    } else {
        None
    }
}

/// All characters are hexadecimal digits.
pub open spec fn all_hex(s: Seq<char>) -> bool {
    forall|i: int| 0 <= i < s.len() ==> #[trigger] hex_digit(s[i]) is Some
}

/// The number that hexadecimal digits write.
pub open spec fn hex_value(s: Seq<char>) -> int
    decreases s.len(),
{
    if s.len() == 0 {
        0
    } else {
        16 * hex_value(s.drop_last()) + hex_digit(s.last())->0
    }
}

/// Largest Unicode codepoint.
pub const MAX_CODEPOINT: usize = 0x10FFFF;

fn digit_of(c: char) -> (r: Option<u32>)
    ensures
        r is Some <==> hex_digit(c) is Some,
        r is Some ==> r->0 as int == hex_digit(c)->0,
{
    if '0' <= c && c <= '9' {
        Some(c as u32 - '0' as u32)
    } else if 'a' <= c && c <= 'f' {
        Some(c as u32 - 'a' as u32 + 10)
    } else if 'A' <= c && c <= 'F' {
        Some(c as u32 - 'A' as u32 + 10)
    } else {
        None
    }
}

/// Reads a codepoint written in hexadecimal, as emoji data sets write them;
/// `None` for anything else, such as a sequence of codepoints.
pub fn parse_codepoint_hex(s: &str) -> (r: Option<usize>)
    ensures
        r is Some <==> s@.len() > 0 && all_hex(s@) && hex_value(s@) <= MAX_CODEPOINT,
        r is Some ==> r->0 == hex_value(s@),
{
    let len = s.unicode_len();
    let mut v: usize = 0;
    let mut all = true;
    let mut n: usize = 0;
    for c in it: s.chars()
        invariant
            it.seq() == s@,
            len == s@.len(),
            n == it.index(),
            n <= len,
            all == all_hex(s@.take(it.index() as int)),
            all ==> v == if hex_value(s@.take(it.index() as int)) <= MAX_CODEPOINT {
                hex_value(s@.take(it.index() as int))
            } else {
                MAX_CODEPOINT + 1
            },
            v <= MAX_CODEPOINT + 1,
    {
        let ghost prefix = s@.take(it.index() as int);
        let ghost next = s@.take(it.index() + 1);
        proof {
            assert(next.drop_last() =~= prefix);
            assert(next.last() == c);
            assert(all_hex(next) == (all_hex(prefix) && hex_digit(c) is Some)) by {
                if all_hex(next) {
                    assert forall|i: int| 0 <= i < prefix.len() implies #[trigger] hex_digit(
                        prefix[i],
                    ) is Some by {
                        assert(prefix[i] == next[i]);
                    }
                    assert(hex_digit(next[prefix.len() as int]) is Some);
                }
                if all_hex(prefix) && hex_digit(c) is Some {
                    assert forall|i: int| 0 <= i < next.len() implies #[trigger] hex_digit(
                        next[i],
                    ) is Some by {
                        if i < prefix.len() {
                            assert(prefix[i] == next[i]);
                        }
                    }
                }
            }
            if all_hex(prefix) {
                lemma_hex_value_nonneg(prefix);
            }
        }
        match digit_of(c) {
            Some(d) => {
                if all {
                    if v > MAX_CODEPOINT {
                        v = MAX_CODEPOINT + 1;
                    } else {
                        let w = 16 * v + d as usize;
                        v = if w > MAX_CODEPOINT {
                            MAX_CODEPOINT + 1
                        } else {
                            w
                        };
                    }
                }
            },
            None => {
                all = false;
            },
        }
        assert(it.index() < it.seq().len());
        n = n + 1;
    }
    assert(s@.take(n as int) =~= s@);
    if all && n > 0 && v <= MAX_CODEPOINT {
        Some(v)
    } else {
        None
    }
}

proof fn lemma_hex_value_nonneg(s: Seq<char>)
    requires
        all_hex(s),
    ensures
        hex_value(s) >= 0,
    decreases s.len(),
{
    if s.len() > 0 {
        assert(all_hex(s.drop_last())) by {
            assert forall|i: int| 0 <= i < s.drop_last().len() implies #[trigger] hex_digit(
                s.drop_last()[i],
            ) is Some by {
                assert(s.drop_last()[i] == s[i]);
            }
        }
        lemma_hex_value_nonneg(s.drop_last());
        assert(hex_digit(s[s.len() - 1]) is Some);
    }
}

/// The codepoint of a text that is exactly one character.
pub fn single_codepoint(s: &str) -> (r: Option<usize>)
    ensures
        r is Some <==> s@.len() == 1,
        r is Some ==> r->0 == s@[0] as u32,
{
    if s.unicode_len() == 1 {
        Some(s.get_char(0) as u32 as usize)
    } else {
        None
    }
}

/// `r` is `s` without the colons at either end.
pub open spec fn trimmed_colons(s: Seq<char>, r: Seq<char>) -> bool {
    exists|a: int, b: int|
        0 <= a <= b <= s.len() && r == s.subrange(a, b) && (forall|i: int|
            0 <= i < a ==> #[trigger] s[i] == ':') && (forall|i: int|
            b <= i < s.len() ==> #[trigger] s[i] == ':') && (a < b ==> s[a] != ':' && s[b - 1]
            != ':')
}

/// `s` without the colons at either end, as in `:smile:`.
pub fn trim_colons(s: &str) -> (r: &str)
    ensures
        trimmed_colons(s@, r@),
{
    let n = s.unicode_len();
    let mut a: usize = 0;
    while a < n && s.get_char(a) == ':'
        invariant
            n == s@.len(),
            a <= n,
            forall|i: int| 0 <= i < a ==> #[trigger] s@[i] == ':',
        decreases n - a,
    {
        a = a + 1;
    }
    let mut b: usize = n;
    while b > a && s.get_char(b - 1) == ':'
        invariant
            n == s@.len(),
            a <= b <= n,
            forall|i: int| b <= i < n ==> #[trigger] s@[i] == ':',
        decreases b,
    {
        b = b - 1;
    }
    let r = s.substring_char(a, b);
    assert(trimmed_colons(s@, r@)) by {
        assert(0 <= a <= b <= s@.len() && r@ == s@.subrange(a as int, b as int));
    }
    r
}

/// The replacement for an emoji that has a name and perhaps a short name:
/// the short name without its colons where it is not empty and shorter than
/// the name, else the name.
pub open spec fn chosen_name(name: Seq<char>, short: Seq<char>) -> Seq<char> {
    if short.len() > 0 && short.len() < name.len() {
        spaced(short).push(' ')
    } else {
        spaced(name).push(' ')
    }
}

/// The entry that an emoji with a name gives: its codepoint where the emoji
/// is one character and a name or short name is given, and the chosen name.
pub fn named_emoji(emoji: &str, name: &str, shortname: &str) -> (r: Option<(usize, String)>)
    ensures
        r is Some <==> emoji@.len() == 1 && (name@.len() > 0 || shortname@.len() > 0),
        match r {
            Some((cp, chosen)) => cp == emoji@[0] as u32 && exists|t: Seq<char>|
                trimmed_colons(shortname@, t) && chosen@ == chosen_name(name@, t),
            None => true,
        },
{
    let cp = match single_codepoint(emoji) {
        Some(cp) => cp,
        None => {
            return None;
        },
    };
    if name.unicode_len() == 0 && shortname.unicode_len() == 0 {
        return None;
    }
    let short = trim_colons(shortname);
    let k = short.unicode_len();
    let chosen = if k > 0 && k < name.unicode_len() {
        emojiname(short)
    } else {
        emojiname(name)
    };
    assert(trimmed_colons(shortname@, short@));
    Some((cp, chosen))
}

} // verus!
