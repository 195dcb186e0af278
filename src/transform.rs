use vstd::prelude::*;

use crate::cxxstring::NativeString;
use crate::encoding::Encoding;

verus! {

pub const SPACE: u8 = 32;
pub const DOUBLE_QUOTE: u8 = 34;
pub const APOSTROPHE: u8 = 39;
pub const COMMA: u8 = 44;
pub const OPEN_BRACKET: u8 = 91;
pub const CLOSE_BRACKET: u8 = 93;

/// Input-class flag: the typed letter is to be capitalized.
pub const CAPS: u8 = 8;

/// Code points up to this one are rendered by the host as they are.
pub const LAST_NATIVE_CODE_POINT: u32 = 122;

/// `s` with every byte replaced through `table`.
pub open spec fn mapped(s: Seq<u8>, table: Seq<u8>) -> Seq<u8> {
    Seq::new(s.len(), |i: int| table[s[i] as int])
}

/// Replaces every byte of `s` through the 256-entry `table`.
fn map_bytes<S: NativeString>(table: &Vec<u8>, s: &mut S)
    requires
        table@.len() == 256,
        old(s).well_formed(),
    ensures
        final(s).well_formed(),
        final(s).content() == mapped(old(s).content(), table@),
{
    let n = s.length();
    let mut i: usize = 0;
    while i < n
        invariant
            table@.len() == 256,
            s.well_formed(),
            n == old(s).content().len(),
            s.content().len() == n,
            i <= n,
            forall|j: int| 0 <= j < i ==> s.content()[j] == table@[old(s).content()[j] as int],
            forall|j: int| i <= j < n ==> s.content()[j] == old(s).content()[j],
        decreases n - i,
    {
        let b = s.byte(i);
        s.set_byte(i, table[b as usize]);
        i = i + 1;
    }
    proof {
        assert(s.content() =~= mapped(old(s).content(), table@));
    }
}

/// Hook body that replaces every byte of a string by its simplified form.
pub fn simplify_string<S: NativeString>(enc: &Encoding, s: &mut S)
    requires
        enc.wf(),
        old(s).well_formed(),
    ensures
        final(s).well_formed(),
        final(s).content() == mapped(old(s).content(), enc.simplify@),
{
    map_bytes(&enc.simplify, s)
}

/// Hook body that replaces every byte of a string by its upper case form.
pub fn upper_case_string<S: NativeString>(enc: &Encoding, s: &mut S)
    requires
        enc.wf(),
        old(s).well_formed(),
    ensures
        final(s).well_formed(),
        final(s).content() == mapped(old(s).content(), enc.uppercase@),
{
    map_bytes(&enc.uppercase, s)
}

/// Hook body that replaces every byte of a string by its lower case form.
pub fn lower_case_string<S: NativeString>(enc: &Encoding, s: &mut S)
    requires
        enc.wf(),
        old(s).well_formed(),
    ensures
        final(s).well_formed(),
        final(s).content() == mapped(old(s).content(), enc.lowercase@),
{
    map_bytes(&enc.lowercase, s)
}

/// The capital form of a byte.
pub fn capitalize(enc: &Encoding, symbol: u8) -> (r: u8)
    requires
        enc.wf(),
    ensures
        r == enc.capitalize@[symbol as int],
{
    enc.capitalize[symbol as usize]
}

/// The lower case form of a byte.
pub fn lowercast(enc: &Encoding, symbol: u8) -> (r: u8)
    requires
        enc.wf(),
    ensures
        r == enc.lowercast@[symbol as int],
{
    enc.lowercast[symbol as usize]
}

/// Number of bytes equal to `b` among the first `n` bytes of `s`.
pub open spec fn count_before(s: Seq<u8>, n: int, b: u8) -> int
    decreases n,
{
    if n <= 0 {
        0
    } else {
        count_before(s, n - 1, b) + if s[n - 1] == b {
            1int
        } else {
            0int
        }
    }
}

/// Bracket nesting depth before position `i`: opening brackets minus
/// closing ones.
pub open spec fn bracket_depth(s: Seq<u8>, i: int) -> int {
    count_before(s, i, OPEN_BRACKET) - count_before(s, i, CLOSE_BRACKET)
}

/// Whether position `i` of `s` starts a word: the first position, or one
/// right after a space or a double quote, or after an apostrophe that itself
/// follows a space or a comma.
pub open spec fn word_start(s: Seq<u8>, i: int) -> bool {
    ||| i == 0
    ||| s[i - 1] == SPACE
    ||| s[i - 1] == DOUBLE_QUOTE
    ||| (i >= 2 && s[i - 1] == APOSTROPHE && (s[i - 2] == SPACE || s[i - 2] == COMMA))
}

/// Whether position `i` is left alone because it is a bracket or lies inside
/// a bracketed span of the starting text `s0`.
pub open spec fn in_brackets(s0: Seq<u8>, i: int) -> bool {
    s0[i] == OPEN_BRACKET || s0[i] == CLOSE_BRACKET || bracket_depth(s0, i) > 0
}

/// Text `c` after the capitalization walk has looked at position `i`, where
/// `s0` is the text the walk started from.
pub open spec fn capitalize_step(table: Seq<u8>, s0: Seq<u8>, c: Seq<u8>, i: int) -> Seq<u8> {
    if in_brackets(s0, i) || !word_start(c, i) {
        c
    } else {
        c.update(i, table[c[i] as int])
    }
}

/// Text after the walk that capitalizes every word has looked at the first
/// `n` positions of `s0`.
pub open spec fn capitalized_words(table: Seq<u8>, s0: Seq<u8>, n: nat) -> Seq<u8>
    decreases n,
{
    if n == 0 {
        s0
    } else {
        capitalize_step(table, s0, capitalized_words(table, s0, (n - 1) as nat), n - 1)
    }
}

/// Text after the walk that capitalizes the first word has looked at the
/// first `n` positions of `s0`, and whether it has stopped: it stops after it
/// capitalizes a byte into something other than a space or a double quote.
pub open spec fn capitalized_first_word(table: Seq<u8>, s0: Seq<u8>, n: nat) -> (Seq<u8>, bool)
    decreases n,
{
    if n == 0 {
        (s0, false)
    } else {
        let (c, done) = capitalized_first_word(table, s0, (n - 1) as nat);
        let i = n - 1;
        if done || in_brackets(s0, i) || !word_start(c, i) {
            (c, done)
        } else {
            let d = c.update(i, table[c[i] as int]);
            (d, d[i] != SPACE && d[i] != DOUBLE_QUOTE)
        }
    }
}

/// Walk state: bracket counts before `i`, from which the depth follows.
proof fn lemma_count_step(s: Seq<u8>, i: int, b: u8)
    requires
        0 <= i < s.len(),
    ensures
        count_before(s, i + 1, b) == count_before(s, i, b) + if s[i] == b {
            1int
        } else {
            0int
        },
        count_before(s, i, b) <= i,
        count_before(s, i, b) >= 0,
    decreases i,
{
    if i > 0 {
        lemma_count_step(s, i - 1, b);
    }
}

/// Hook body that capitalizes the first letter of every word of a string,
/// leaving bracketed spans alone.
pub fn capitalize_string_words<S: NativeString>(enc: &Encoding, s: &mut S)
    requires
        enc.wf(),
        old(s).well_formed(),
    ensures
        final(s).well_formed(),
        final(s).content() == capitalized_words(
            enc.uppercase@,
            old(s).content(),
            old(s).content().len(),
        ),
{
    let ghost s0 = s.content();
    let ghost table = enc.uppercase@;
    let n = s.length();
    let mut opened: usize = 0;
    let mut closed: usize = 0;
    let mut i: usize = 0;
    while i < n
        invariant
            enc.wf(),
            table == enc.uppercase@,
            s.well_formed(),
            s0 == old(s).content(),
            n == s0.len(),
            i <= n,
            s.content() == capitalized_words(table, s0, i as nat),
            s.content().len() == n,
            forall|j: int| i <= j < n ==> s.content()[j] == s0[j],
            opened == count_before(s0, i as int, OPEN_BRACKET),
            closed == count_before(s0, i as int, CLOSE_BRACKET),
        decreases n - i,
    {
        proof {
            lemma_count_step(s0, i as int, OPEN_BRACKET);
            lemma_count_step(s0, i as int, CLOSE_BRACKET);
            lemma_words_keep_suffix(table, s0, i as nat);
        }
        let ghost before = s.content();
        let c = s.byte(i);
        if c == OPEN_BRACKET {
            opened = opened + 1;
        } else if c == CLOSE_BRACKET {
            closed = closed + 1;
        } else if opened <= closed {
            let start = i == 0 || {
                let p = s.byte(i - 1);
                p == SPACE || p == DOUBLE_QUOTE || (i >= 2 && p == APOSTROPHE && {
                    let q = s.byte(i - 2);
                    q == SPACE || q == COMMA
                })
            };
            if start {
                s.set_byte(i, enc.uppercase[c as usize]);
            }
        }
        i = i + 1;
        proof {
            assert(s.content() =~= capitalize_step(table, s0, before, i - 1));
        }
    }
}

/// The walk has not touched positions at or after `n`.
proof fn lemma_words_keep_suffix(table: Seq<u8>, s0: Seq<u8>, n: nat)
    requires
        n <= s0.len(),
    ensures
        capitalized_words(table, s0, n).len() == s0.len(),
        forall|j: int| n <= j < s0.len() ==> capitalized_words(table, s0, n)[j] == s0[j],
    decreases n,
{
    if n > 0 {
        lemma_words_keep_suffix(table, s0, (n - 1) as nat);
    }
}

/// Hook body that capitalizes the first word of a string, leaving bracketed
/// spans alone: it stops once it has produced a byte other than a space or a
/// double quote.
pub fn capitalize_string_first_word<S: NativeString>(enc: &Encoding, s: &mut S)
    requires
        enc.wf(),
        old(s).well_formed(),
    ensures
        final(s).well_formed(),
        final(s).content() == capitalized_first_word(
            enc.uppercase@,
            old(s).content(),
            old(s).content().len(),
        ).0,
{
    let ghost s0 = s.content();
    let ghost table = enc.uppercase@;
    let n = s.length();
    let mut opened: usize = 0;
    let mut closed: usize = 0;
    let mut i: usize = 0;
    while i < n
        invariant
            enc.wf(),
            table == enc.uppercase@,
            s.well_formed(),
            s0 == old(s).content(),
            n == s0.len(),
            i <= n,
            capitalized_first_word(table, s0, i as nat) == (s.content(), false),
            s.content().len() == n,
            forall|j: int| i <= j < n ==> s.content()[j] == s0[j],
            opened == count_before(s0, i as int, OPEN_BRACKET),
            closed == count_before(s0, i as int, CLOSE_BRACKET),
        decreases n - i,
    {
        proof {
            lemma_count_step(s0, i as int, OPEN_BRACKET);
            lemma_count_step(s0, i as int, CLOSE_BRACKET);
        }
        let ghost before = s.content();
        let c = s.byte(i);
        if c == OPEN_BRACKET {
            opened = opened + 1;
        } else if c == CLOSE_BRACKET {
            closed = closed + 1;
        } else if opened <= closed {
            let start = i == 0 || {
                let p = s.byte(i - 1);
                p == SPACE || p == DOUBLE_QUOTE || (i >= 2 && p == APOSTROPHE && {
                    let q = s.byte(i - 2);
                    q == SPACE || q == COMMA
                })
            };
            if start {
                let u = enc.uppercase[c as usize];
                s.set_byte(i, u);
                if u != SPACE && u != DOUBLE_QUOTE {
                    proof {
                        assert(capitalized_first_word(table, s0, (i + 1) as nat) == (s.content(), true));
                        lemma_first_word_done(table, s0, (i + 1) as nat);
                    }
                    return;
                }
            }
        }
        i = i + 1;
    }
}

/// Once the first-word walk has stopped, later positions change nothing.
proof fn lemma_first_word_done(table: Seq<u8>, s0: Seq<u8>, n: nat)
    requires
        n <= s0.len(),
        capitalized_first_word(table, s0, n).1,
    ensures
        capitalized_first_word(table, s0, s0.len()) == capitalized_first_word(table, s0, n),
    decreases s0.len() - n,
{
    if n < s0.len() {
        lemma_first_word_done(table, s0, n + 1);
    }
}

/// Both capitalization walks leave every bracket, and every byte inside a
/// bracketed span, as it was, however deeply the brackets nest.
pub proof fn lemma_brackets_untouched(table: Seq<u8>, s0: Seq<u8>, i: int)
    requires
        0 <= i < s0.len(),
        in_brackets(s0, i),
    ensures
        capitalized_words(table, s0, s0.len())[i] == s0[i],
        capitalized_first_word(table, s0, s0.len()).0[i] == s0[i],
{
    lemma_walks_keep(table, s0, i, s0.len());
}

proof fn lemma_walks_keep(table: Seq<u8>, s0: Seq<u8>, i: int, n: nat)
    requires
        0 <= i < s0.len(),
        n <= s0.len(),
        in_brackets(s0, i),
    ensures
        capitalized_words(table, s0, n).len() == s0.len(),
        capitalized_first_word(table, s0, n).0.len() == s0.len(),
        capitalized_words(table, s0, n)[i] == s0[i],
        capitalized_first_word(table, s0, n).0[i] == s0[i],
    decreases n,
{
    if n > 0 {
        lemma_walks_keep(table, s0, i, (n - 1) as nat);
    }
}

/// The first-word walk stops at its first real capitalization: of any two
/// bytes it changes, the earlier one became a space or a double quote.
pub proof fn lemma_first_word_changes_once(table: Seq<u8>, s0: Seq<u8>)
    ensures
        ({
            let c = capitalized_first_word(table, s0, s0.len()).0;
            forall|i: int, j: int|
                0 <= i < j < s0.len() && c[i] != s0[i] && c[j] != s0[j] ==> c[i] == SPACE || c[i]
                    == DOUBLE_QUOTE
        }),
{
    lemma_first_word_walk(table, s0, s0.len());
}

proof fn lemma_first_word_walk(table: Seq<u8>, s0: Seq<u8>, n: nat)
    requires
        n <= s0.len(),
    ensures
        ({
            let (c, done) = capitalized_first_word(table, s0, n);
            &&& c.len() == s0.len()
            &&& forall|i: int| n <= i < s0.len() ==> c[i] == s0[i]
            &&& !done ==> forall|i: int|
                0 <= i < n && c[i] != s0[i] ==> c[i] == SPACE || c[i] == DOUBLE_QUOTE
            &&& forall|i: int, j: int|
                0 <= i < j < n && c[i] != s0[i] && c[j] != s0[j] ==> c[i] == SPACE || c[i]
                    == DOUBLE_QUOTE
        }),
    decreases n,
{
    if n > 0 {
        lemma_first_word_walk(table, s0, (n - 1) as nat);
        let (c, done) = capitalized_first_word(table, s0, (n - 1) as nat);
        let k = n - 1;
        if !(done || in_brackets(s0, k) || !word_start(c, k)) {
            let d = c.update(k, table[c[k] as int]);
            assert forall|i: int, j: int|
                0 <= i < j < n && d[i] != s0[i] && d[j] != s0[j] implies d[i] == SPACE || d[i]
                    == DOUBLE_QUOTE by {
                assert(d[i] == c[i]);
            }
        }
    }
}

/// The code point that the keystroke path hands on for `c`: a code point
/// beyond the host's range that the map knows becomes its legacy byte,
/// capitalized when the input class asks for capitals; any other passes
/// through.
pub open spec fn remapped(enc: &Encoding, c: u32, flag: u8) -> u32 {
    if c > LAST_NATIVE_CODE_POINT && enc.utf@.contains_key(c) {
        let e = enc.utf@[c];
        if flag & CAPS > 0 {
            enc.capitalize@[e as int] as u32
        } else {
            e as u32
        }
    } else {
        c
    }
}

/// Hook body for the host's text input: remaps the pending code points in
/// place before they reach the host.
pub fn standardstringentry(enc: &Encoding, utf: &mut Vec<u32>, flag: u8)
    requires
        enc.wf(),
    ensures
        final(utf)@.len() == old(utf)@.len(),
        forall|i: int|
            0 <= i < old(utf)@.len() ==> #[trigger] final(utf)@[i] == remapped(enc, old(utf)@[i], flag),
{
    broadcast use vstd::std_specs::hash::group_hash_axioms;

    let mut i: usize = 0;
    while i < utf.len()
        invariant
            enc.wf(),
            utf@.len() == old(utf)@.len(),
            i <= utf@.len(),
            forall|j: int| 0 <= j < i ==> #[trigger] utf@[j] == remapped(enc, old(utf)@[j], flag),
            forall|j: int| i <= j < utf@.len() ==> utf@[j] == old(utf)@[j],
        decreases utf@.len() - i,
    {
        let c = utf[i];
        if c > LAST_NATIVE_CODE_POINT {
            match enc.utf.get(&c) {
                Some(e) => {
                    let v: u32 = if flag & CAPS > 0 {
                        capitalize(enc, *e) as u32
                    } else {
                        *e as u32
                    };
                    utf.set(i, v);
                },
                None => {},
            }
        }
        i = i + 1;
    }
}

} // verus!
