use std::collections::HashMap;
use vstd::prelude::*;

verus! {

/// Why encoding tables could not be built.
#[derive(Debug, Clone, Copy, PartialEq, Eq, Structural)]
pub enum EncodingError {
    /// The document is not valid TOML or lacks one of the tables.
    MissingTable,
    /// A key is not a valid index list.
    BadKey,
    /// A value that is used is not an integer.
    NotInteger,
}

pub open spec fn is_digit(c: char) -> bool {
    '0' <= c && c <= '9'
}

pub open spec fn all_digits(s: Seq<char>) -> bool {
    forall|i: int| 0 <= i < s.len() ==> is_digit(#[trigger] s[i])
}

/// Value of a string of decimal digits.
pub open spec fn digits_value(s: Seq<char>) -> int
    decreases s.len(),
{
    if s.len() == 0 {
        0
    } else {
        digits_value(s.drop_last()) * 10 + (s.last() as int - '0' as int)
    }
}

/// An unsigned decimal number of at most `max`, with an optional leading `+`,
/// as the standard library parses it.
pub open spec fn decimal(s: Seq<char>, max: int) -> Option<int> {
    let d = if s.len() > 0 && s[0] == '+' {
        s.drop_first()
    } else {
        s
    };
    if d.len() > 0 && all_digits(d) && digits_value(d) <= max {
        Some(digits_value(d))
    } else {
        None
    }
}

/// Parses an unsigned decimal number of at most `max`.
pub fn parse_decimal(s: &[char], max: u32) -> (r: Option<u32>)
    ensures
        match r {
            Some(v) => decimal(s@, max as int) == Some(v as int),
            None => decimal(s@, max as int).is_none(),
        },
{
    let start: usize = if s.len() > 0 && s[0] == '+' {
        1
    } else {
        0
    };
    let ghost d = if s@.len() > 0 && s@[0] == '+' {
        s@.drop_first()
    } else {
        s@
    };
    proof {
        assert(d =~= s@.skip(start as int));
    }
    if start >= s.len() {
        return None;
    }
    let cap: u64 = max as u64 + 1;
    let mut acc: u64 = 0;
    let mut i: usize = start;
    while i < s.len()
        invariant
            start <= i <= s@.len(),
            d =~= s@.skip(start as int),
            d == (if s@.len() > 0 && s@[0] == '+' {
                s@.drop_first()
            } else {
                s@
            }),
            cap == max as u64 + 1,
            all_digits(s@.subrange(start as int, i as int)),
            acc as int == if digits_value(s@.subrange(start as int, i as int)) < cap {
                digits_value(s@.subrange(start as int, i as int))
            } else {
                cap as int
            },
            digits_value(s@.subrange(start as int, i as int)) >= 0,
        decreases s@.len() - i,
    {
        let c = s[i];
        if c < '0' || c > '9' {
            proof {
                assert(d[i - start] == c);
                assert(!is_digit(c));
                assert(!all_digits(d));

            }
            return None;
        }
        let digit: u64 = (c as u32 - '0' as u32) as u64;
        let ghost prev = digits_value(s@.subrange(start as int, i as int));
        proof {
            let next = s@.subrange(start as int, i as int + 1);
            assert(next.drop_last() =~= s@.subrange(start as int, i as int));
            assert(next.last() == c);
            assert(digits_value(next) == prev * 10 + digit);
            if prev >= cap {
                assert(prev * 10 + digit >= cap) by (nonlinear_arith)
                    requires
                        prev >= cap,
                        digit >= 0,
                ;
            }
        }
        acc = acc * 10 + digit;
        if acc > cap {
            acc = cap;
        }
        i = i + 1;
    }
    proof {
        assert(s@.subrange(start as int, s@.len() as int) =~= d);
    }
    if acc > max as u64 {
        None
    } else {
        Some(acc as u32)
    }
}

/// The pieces of `s` between occurrences of `c`, as `str::split` gives them.
pub open spec fn pieces(s: Seq<char>, c: char) -> Seq<Seq<char>>
    decreases s.len(),
{
    if s.len() == 0 {
        seq![Seq::<char>::empty()]
    } else {
        let p = pieces(s.drop_last(), c);
        if s.last() == c {
            p.push(Seq::<char>::empty())
        } else {
            p.update(p.len() - 1, p.last().push(s.last()))
        }
    }
}

pub proof fn lemma_pieces_len(s: Seq<char>, c: char)
    ensures
        pieces(s, c).len() >= 1,
        s.contains(c) ==> pieces(s, c).len() >= 2,
    decreases s.len(),
{
    if s.len() > 0 {
        lemma_pieces_len(s.drop_last(), c);
        if s.contains(c) && s.last() != c {
            let i = choose|i: int| 0 <= i < s.len() && s[i] == c;
            assert(s.drop_last()[i] == c);
        }
    }
}

/// Splits `s` at every occurrence of `c`.
pub fn split_chars(s: &[char], c: char) -> (r: Vec<Vec<char>>)
    ensures
        r.deep_view() == pieces(s@, c),
{
    let mut out: Vec<Vec<char>> = Vec::new();
    out.push(Vec::new());
    let mut i: usize = 0;
    proof {
        assert(out.deep_view() =~~= pieces(s@.take(0), c));
    }
    while i < s.len()
        invariant
            i <= s@.len(),
            out.deep_view() == pieces(s@.take(i as int), c),
            out@.len() >= 1,
        decreases s@.len() - i,
    {
        proof {
            assert(s@.take(i as int + 1).drop_last() =~= s@.take(i as int));
            lemma_pieces_len(s@.take(i as int), c);
        }
        let ghost before = out.deep_view();
        if s[i] == c {
            out.push(Vec::new());
            proof {
                assert(out.deep_view() =~~= before.push(Seq::<char>::empty()));
            }
        } else {
            let last = out.len() - 1;
            let mut piece = out.pop().unwrap();
            piece.push(s[i]);
            out.push(piece);
            proof {
                assert(out.deep_view() =~~= before.update(before.len() - 1, before.last().push(s@[i as int])));
            }
        }
        i = i + 1;
    }
    proof {
        assert(s@.take(s@.len() as int) =~= s@);
    }
    out
}

/// An integer cast to a byte: its value modulo 256.
pub open spec fn to_byte(x: i64) -> u8 {
    (x as int % 256) as u8
}

/// Casts an integer to a byte as `as u8` does.
pub fn byte_of(x: i64) -> (r: u8)
    ensures
        r == to_byte(x),
{
    if x >= 0 {
        (x % 256) as u8
    } else {
        let y: i64 = -(x + 1);
        let m: i64 = y % 256;
        proof {
            assert((x as int) % 256 == 255 - (y as int) % 256) by (nonlinear_arith)
                requires
                    y == -(x + 1),
                    y >= 0,
            ;
        }
        (255 - m) as u8
    }
}

/// The byte positions that a key of an encoding table names: `a:b` for the
/// range from `a` to `b`, `a|b|c` for a list, `a` for one position.
pub open spec fn index_list(s: Seq<char>) -> Option<Seq<u8>> {
    if s.contains(':') {
        let r = pieces(s, ':');
        match (decimal(r[0], 255), decimal(r[1], 255)) {
            (Some(a), Some(b)) => Some(byte_range(a, b)),
            _ => None,
        }
    } else {
        parse_all(pieces(s, '|'))
    }
}

/// The bytes from `a` to `b`, both included.
pub open spec fn byte_range(a: int, b: int) -> Seq<u8> {
    Seq::new(if a <= b { (b - a + 1) as nat } else { 0 }, |j: int| (a + j) as u8)
}

/// Every piece parsed as a byte, or `None` where one is not a byte.
pub open spec fn parse_all(ps: Seq<Seq<char>>) -> Option<Seq<u8>>
    decreases ps.len(),
{
    if ps.len() == 0 {
        Some(Seq::empty())
    } else {
        match (parse_all(ps.drop_last()), decimal(ps.last(), 255)) {
            (Some(v), Some(x)) => Some(v.push(x as u8)),
            _ => None,
        }
    }
}

/// Whether `s` holds `c`.
fn contains_char(s: &[char], c: char) -> (r: bool)
    ensures
        r == s@.contains(c),
{
    let mut i: usize = 0;
    while i < s.len()
        invariant
            i <= s@.len(),
            forall|j: int| 0 <= j < i ==> s@[j] != c,
        decreases s@.len() - i,
    {
        if s[i] == c {
            proof {
                assert(s@[i as int] == c);
            }
            return true;
        }
        i = i + 1;
    }
    false
}

/// Reads the byte positions that a key of an encoding table names.
pub fn str_to_array(value: &[char]) -> (r: Result<Vec<u8>, EncodingError>)
    ensures
        match r {
            Ok(v) => index_list(value@) == Some(v@),
            Err(e) => index_list(value@).is_none() && e == EncodingError::BadKey,
        },
{
    if contains_char(value, ':') {
        let r = split_chars(value, ':');
        proof {
            lemma_pieces_len(value@, ':');
            assert(r@[0]@ =~= pieces(value@, ':')[0]);
            assert(r@[1]@ =~= pieces(value@, ':')[1]);
        }
        let start = match parse_decimal(r[0].as_slice(), 255) {
            Some(v) => v,
            None => return Err(EncodingError::BadKey),
        };
        let end = match parse_decimal(r[1].as_slice(), 255) {
            Some(v) => v,
            None => return Err(EncodingError::BadKey),
        };
        let mut out: Vec<u8> = Vec::new();
        if start > end {
            proof {
                assert(out@ =~= byte_range(start as int, end as int));
            }
            return Ok(out);
        }
        let mut i: u32 = start;
        while i <= end
            invariant
                start <= i <= end + 1,
                end <= 255,
                out@ == byte_range(start as int, i as int - 1),
            decreases end + 1 - i,
        {
            out.push(i as u8);
            i = i + 1;
            proof {
                assert(out@ =~= byte_range(start as int, i as int - 1));
            }
        }
        proof {
            assert(out@ =~= byte_range(start as int, end as int));
        }
        Ok(out)
    } else {
        let ps = split_chars(value, '|');
        let mut out: Vec<u8> = Vec::new();
        let mut i: usize = 0;
        while i < ps.len()
            invariant
                i <= ps@.len(),
                !value@.contains(':'),
                ps.deep_view() == pieces(value@, '|'),
                parse_all(ps.deep_view().take(i as int)) == Some(out@),
            decreases ps@.len() - i,
        {
            proof {
                assert(ps.deep_view().take(i as int + 1).drop_last() =~= ps.deep_view().take(i as int));
                assert(ps@[i as int]@ =~= ps.deep_view()[i as int]);
            }
            match parse_decimal(ps[i].as_slice(), 255) {
                Some(x) => out.push(x as u8),
                None => {
                    proof {
                        let t = ps.deep_view().take(i as int + 1);
                        assert(t.last() == ps.deep_view()[i as int]);
                        assert(parse_all(t).is_none());
                        lemma_parse_all_prefix(ps.deep_view(), i as int + 1);
                        assert(index_list(value@).is_none());
                    }
                    return Err(EncodingError::BadKey);
                },
            }
            i = i + 1;
        }
        proof {
            assert(ps.deep_view().take(ps@.len() as int) =~= ps.deep_view());
        }
        Ok(out)
    }
}

/// Where a prefix of the pieces fails to parse, so do all of them.
pub proof fn lemma_parse_all_prefix(ps: Seq<Seq<char>>, n: int)
    requires
        0 <= n <= ps.len(),
        parse_all(ps.take(n)).is_none(),
    ensures
        parse_all(ps).is_none(),
    decreases ps.len() - n,
{
    if n < ps.len() {
        assert(ps.take(n + 1).drop_last() =~= ps.take(n));
        lemma_parse_all_prefix(ps, n + 1);
    } else {
        assert(ps.take(n) =~= ps);
    }
}

/// The table that maps every byte to itself.
pub open spec fn identity_table() -> Seq<u8> {
    Seq::new(256, |i: int| i as u8)
}

/// `t` with `d` added, wrapping, at each position of `idx` in turn.
pub open spec fn shift_apply(t: Seq<u8>, idx: Seq<u8>, d: u8) -> Seq<u8>
    decreases idx.len(),
{
    if idx.len() == 0 {
        t
    } else {
        let u = shift_apply(t, idx.drop_last(), d);
        u.update(idx.last() as int, ((u[idx.last() as int] + d) % 256) as u8)
    }
}

/// `t` with `v` written at each position of `idx`.
pub open spec fn replace_apply(t: Seq<u8>, idx: Seq<u8>, v: u8) -> Seq<u8>
    decreases idx.len(),
{
    if idx.len() == 0 {
        t
    } else {
        replace_apply(t, idx.drop_last(), v).update(idx.last() as int, v)
    }
}

/// The table that the entries of a table section make of `t`, each entry
/// naming positions in its key and an integer in its value: added to the
/// byte at each position when `shift` holds, else written there. A value is
/// read only where its key names some position.
pub open spec fn transition(
    t: Seq<u8>,
    entries: Seq<(Seq<char>, Option<i64>)>,
    shift: bool,
) -> Result<Seq<u8>, EncodingError>
    decreases entries.len(),
{
    if entries.len() == 0 {
        Ok(t)
    } else {
        match transition(t, entries.drop_last(), shift) {
            Err(e) => Err(e),
            Ok(u) => match index_list(entries.last().0) {
                None => Err(EncodingError::BadKey),
                Some(idx) => if idx.len() == 0 {
                    Ok(u)
                } else {
                    match entries.last().1 {
                        None => Err(EncodingError::NotInteger),
                        Some(x) => Ok(
                            if shift {
                                shift_apply(u, idx, to_byte(x))
                            } else {
                                replace_apply(u, idx, to_byte(x))
                            },
                        ),
                    }
                },
            },
        }
    }
}

/// The code point map that the entries of the `utf` section give: each key a
/// decimal code point, each value the byte it maps to.
pub open spec fn utf_map(entries: Seq<(Seq<char>, Option<i64>)>) -> Result<
    Map<u32, u8>,
    EncodingError,
>
    decreases entries.len(),
{
    if entries.len() == 0 {
        Ok(Map::empty())
    } else {
        match utf_map(entries.drop_last()) {
            Err(e) => Err(e),
            Ok(m) => match decimal(entries.last().0, u32::MAX as int) {
                None => Err(EncodingError::BadKey),
                Some(k) => match entries.last().1 {
                    None => Err(EncodingError::NotInteger),
                    Some(x) => Ok(m.insert(k as u32, to_byte(x))),
                },
            },
        }
    }
}

/// The identity table.
fn identity() -> (r: Vec<u8>)
    ensures
        r@ == identity_table(),
{
    let mut out: Vec<u8> = Vec::new();
    let mut i: usize = 0;
    while i < 256
        invariant
            i <= 256,
            out@ == identity_table().take(i as int),
        decreases 256 - i,
    {
        out.push(i as u8);
        i = i + 1;
        proof {
            assert(out@ =~= identity_table().take(i as int));
        }
    }
    proof {
        assert(identity_table().take(256) =~= identity_table());
    }
    out
}

/// Applies the entries of a table section to `base`.
fn apply_entries(
    entries: &Vec<(Vec<char>, Option<i64>)>,
    base: Vec<u8>,
    shift: bool,
) -> (r: Result<Vec<u8>, EncodingError>)
    requires
        base@.len() == 256,
    ensures
        r matches Ok(t) ==> t@.len() == 256,
        match r {
            Ok(t) => transition(base@, entries.deep_view(), shift) == Ok::<Seq<u8>, EncodingError>(t@),
            Err(e) => transition(base@, entries.deep_view(), shift) == Err::<Seq<u8>, EncodingError>(e),
        },
{
    let ghost all = entries.deep_view();
    let mut out = base;
    let mut n: usize = 0;
    while n < entries.len()
        invariant
            n <= entries@.len(),
            all == entries.deep_view(),
            out@.len() == 256,
            transition(base@, all.take(n as int), shift) == Ok::<Seq<u8>, EncodingError>(out@),
        decreases entries@.len() - n,
    {
        proof {
            assert(all.take(n as int + 1).drop_last() =~= all.take(n as int));
            assert(all[n as int].0 =~= entries@[n as int].0@);
        }
        let idx = match str_to_array(entries[n].0.as_slice()) {
            Ok(v) => v,
            Err(e) => {
                proof {
                    lemma_transition_prefix(base@, all, n as int + 1, shift);
                }
                return Err(e);
            },
        };
        if idx.len() > 0 {
            let x = match entries[n].1 {
                Some(x) => x,
                None => {
                    proof {
                        lemma_transition_prefix(base@, all, n as int + 1, shift);
                    }
                    return Err(EncodingError::NotInteger);
                },
            };
            let b = byte_of(x);
            let ghost start = out@;
            let mut j: usize = 0;
            while j < idx.len()
                invariant
                    j <= idx@.len(),
                    out@.len() == 256,
                    out@ == if shift {
                        shift_apply(start, idx@.take(j as int), b)
                    } else {
                        replace_apply(start, idx@.take(j as int), b)
                    },
                decreases idx@.len() - j,
            {
                proof {
                    assert(idx@.take(j as int + 1).drop_last() =~= idx@.take(j as int));
                }
                let p = idx[j] as usize;
                if shift {
                    let v = out[p].wrapping_add(b);
                    out.set(p, v);
                } else {
                    out.set(p, b);
                }
                j = j + 1;
            }
            proof {
                assert(idx@.take(idx@.len() as int) =~= idx@);
            }
        }
        n = n + 1;
    }
    proof {
        assert(all.take(entries@.len() as int) =~= all);
    }
    Ok(out)
}

/// Where the entries up to `n` fail, so do all of them, with the same error.
pub proof fn lemma_transition_prefix(
    t: Seq<u8>,
    entries: Seq<(Seq<char>, Option<i64>)>,
    n: int,
    shift: bool,
)
    requires
        0 <= n <= entries.len(),
        transition(t, entries.take(n), shift) is Err,
    ensures
        transition(t, entries, shift) == transition(t, entries.take(n), shift),
    decreases entries.len() - n,
{
    if n < entries.len() {
        assert(entries.take(n + 1).drop_last() =~= entries.take(n));
        lemma_transition_prefix(t, entries, n + 1, shift);
    } else {
        assert(entries.take(n) =~= entries);
    }
}

/// Adds the value of each entry to the table positions its key names,
/// starting from `base` or from the identity table.
pub fn shift_transition(
    map: &Vec<(Vec<char>, Option<i64>)>,
    base: Option<Vec<u8>>,
) -> (r: Result<Vec<u8>, EncodingError>)
    requires
        base matches Some(b) ==> b@.len() == 256,
    ensures
        r matches Ok(v) ==> v@.len() == 256,
        ({
            let t = match base {
                Some(b) => b@,
                None => identity_table(),
            };
            match r {
                Ok(v) => transition(t, map.deep_view(), true) == Ok::<Seq<u8>, EncodingError>(v@),
                Err(e) => transition(t, map.deep_view(), true) == Err::<Seq<u8>, EncodingError>(e),
            }
        }),
{
    let t = match base {
        Some(b) => b,
        None => identity(),
    };
    apply_entries(map, t, true)
}

/// Writes the value of each entry at the table positions its key names,
/// starting from `base` or from the identity table.
pub fn replace_transition(
    map: &Vec<(Vec<char>, Option<i64>)>,
    base: Option<Vec<u8>>,
) -> (r: Result<Vec<u8>, EncodingError>)
    requires
        base matches Some(b) ==> b@.len() == 256,
    ensures
        r matches Ok(v) ==> v@.len() == 256,
        ({
            let t = match base {
                Some(b) => b@,
                None => identity_table(),
            };
            match r {
                Ok(v) => transition(t, map.deep_view(), false) == Ok::<Seq<u8>, EncodingError>(v@),
                Err(e) => transition(t, map.deep_view(), false) == Err::<Seq<u8>, EncodingError>(e),
            }
        }),
{
    let t = match base {
        Some(b) => b,
        None => identity(),
    };
    apply_entries(map, t, false)
}

/// Reads the code point map of the `utf` section.
pub fn utf_transition(map: &Vec<(Vec<char>, Option<i64>)>) -> (r: Result<
    HashMap<u32, u8>,
    EncodingError,
>)
    ensures
        match r {
            Ok(m) => utf_map(map.deep_view()) == Ok::<Map<u32, u8>, EncodingError>(m@),
            Err(e) => utf_map(map.deep_view()) == Err::<Map<u32, u8>, EncodingError>(e),
        },
{
    broadcast use vstd::std_specs::hash::group_hash_axioms;

    let ghost all = map.deep_view();
    let mut out: HashMap<u32, u8> = HashMap::new();
    let mut n: usize = 0;
    while n < map.len()
        invariant
            n <= map@.len(),
            all == map.deep_view(),
            utf_map(all.take(n as int)) == Ok::<Map<u32, u8>, EncodingError>(out@),
        decreases map@.len() - n,
    {
        proof {
            assert(all.take(n as int + 1).drop_last() =~= all.take(n as int));
            assert(all[n as int].0 =~= map@[n as int].0@);
        }
        let k = match parse_decimal(map[n].0.as_slice(), u32::MAX) {
            Some(k) => k,
            None => {
                proof {
                    lemma_utf_map_prefix(all, n as int + 1);
                }
                return Err(EncodingError::BadKey);
            },
        };
        let x = match map[n].1 {
            Some(x) => x,
            None => {
                proof {
                    lemma_utf_map_prefix(all, n as int + 1);
                }
                return Err(EncodingError::NotInteger);
            },
        };
        out.insert(k, byte_of(x));
        n = n + 1;
    }
    proof {
        assert(all.take(map@.len() as int) =~= all);
    }
    Ok(out)
}

/// Where the entries up to `n` fail, so do all of them, with the same error.
pub proof fn lemma_utf_map_prefix(entries: Seq<(Seq<char>, Option<i64>)>, n: int)
    requires
        0 <= n <= entries.len(),
        utf_map(entries.take(n)) is Err,
    ensures
        utf_map(entries) == utf_map(entries.take(n)),
    decreases entries.len() - n,
{
    if n < entries.len() {
        assert(entries.take(n + 1).drop_last() =~= entries.take(n));
        lemma_utf_map_prefix(entries, n + 1);
    } else {
        assert(entries.take(n) =~= entries);
    }
}

/// The entries of table `name` inside table `section` of a TOML document, in
/// the order the document's table gives them, each key with its value when
/// that is an integer; `None` where the document is not valid TOML or lacks
/// that table.
pub uninterp spec fn toml_table_entries(
    content: Seq<char>,
    section: Seq<char>,
    name: Seq<char>,
) -> Option<Seq<(Seq<char>, Option<i64>)>>;

/// Relies on `toml::Table`'s `FromStr`, `Table::get`, `Value::get`,
/// `Value::as_table`, the table's iteration and `Value::as_integer`, to read
/// one table of a TOML document.
#[verifier::external_body]
fn table_entries(content: &str, section: &str, name: &str) -> (r: Option<
    Vec<(Vec<char>, Option<i64>)>,
>)
    ensures
        r.deep_view() == toml_table_entries(content@, section@, name@),
{
    let doc = content.parse::<toml::Table>().ok()?;
    let table = doc.get(section)?.get(name)?.as_table()?;
    Some(table.iter().map(|(k, v)| (k.chars().collect(), v.as_integer())).collect())
}

/// Byte remap tables and the code point map that drive case folding,
/// simplification and keyboard input.
pub struct Encoding {
    pub capitalize: Vec<u8>,
    pub lowercast: Vec<u8>,
    pub simplify: Vec<u8>,
    pub uppercase: Vec<u8>,
    pub lowercase: Vec<u8>,
    pub utf: HashMap<u32, u8>,
    pub parsed: bool,
}

/// Everything an encoding holds, as plain values.
pub struct EncodingModel {
    pub capitalize: Seq<u8>,
    pub lowercast: Seq<u8>,
    pub simplify: Seq<u8>,
    pub uppercase: Seq<u8>,
    pub lowercase: Seq<u8>,
    pub utf: Map<u32, u8>,
    pub parsed: bool,
}

/// Section of the encoding document that holds the tables.
pub const MAPS_SECTION: &'static str = "maps";

/// The encoding with identity tables, an empty code point map, and `parsed`
/// unset.
pub open spec fn default_model() -> EncodingModel {
    EncodingModel {
        capitalize: identity_table(),
        lowercast: identity_table(),
        simplify: identity_table(),
        uppercase: identity_table(),
        lowercase: identity_table(),
        utf: Map::empty(),
        parsed: false,
    }
}

/// The encoding that an encoding document gives: the capitalize and
/// lowercast tables shift the identity table, the simplify and lowercase
/// tables overwrite the lowercast table, and the uppercase table overwrites
/// the capitalize table.
pub open spec fn parsed_model(content: Seq<char>) -> Result<EncodingModel, EncodingError> {
    let get = |name: Seq<char>| toml_table_entries(content, MAPS_SECTION@, name);
    if get("capitalize"@) is None || get("lowercast"@) is None || get("simplify"@) is None
        || get("uppercase"@) is None || get("lowercase"@) is None || get("utf"@) is None {
        Err(EncodingError::MissingTable)
    } else {
        match (
            transition(identity_table(), get("capitalize"@)->0, true),
            transition(identity_table(), get("lowercast"@)->0, true),
        ) {
            (Ok(cap), Ok(low)) => match (
                transition(low, get("simplify"@)->0, false),
                transition(cap, get("uppercase"@)->0, false),
                transition(low, get("lowercase"@)->0, false),
                utf_map(get("utf"@)->0),
            ) {
                (Ok(simp), Ok(up), Ok(lower), Ok(utf)) => Ok(
                    EncodingModel {
                        capitalize: cap,
                        lowercast: low,
                        simplify: simp,
                        uppercase: up,
                        lowercase: lower,
                        utf,
                        parsed: true,
                    },
                ),
                (Err(e), _, _, _) => Err(e),
                (_, Err(e), _, _) => Err(e),
                (_, _, Err(e), _) => Err(e),
                (_, _, _, Err(e)) => Err(e),
            },
            (Err(e), _) => Err(e),
            (_, Err(e)) => Err(e),
        }
    }
}

impl Encoding {
    pub open spec fn view(&self) -> EncodingModel {
        EncodingModel {
            capitalize: self.capitalize@,
            lowercast: self.lowercast@,
            simplify: self.simplify@,
            uppercase: self.uppercase@,
            lowercase: self.lowercase@,
            utf: self.utf@,
            parsed: self.parsed,
        }
    }

    /// Every table has one entry per byte.
    pub open spec fn wf(&self) -> bool {
        &&& self.capitalize@.len() == 256
        &&& self.lowercast@.len() == 256
        &&& self.simplify@.len() == 256
        &&& self.uppercase@.len() == 256
        &&& self.lowercase@.len() == 256
    }

    /// The tables of an encoding document.
    pub fn parse_encodings(content: &str) -> (r: Result<Encoding, EncodingError>)
        ensures
            match r {
                Ok(e) => e.wf() && parsed_model(content@) == Ok::<EncodingModel, EncodingError>(
                    e@,
                ),
                Err(e) => parsed_model(content@) == Err::<EncodingModel, EncodingError>(e),
            },
    {
        proof {
            reveal_strlit("capitalize");
            reveal_strlit("lowercast");
            reveal_strlit("simplify");
            reveal_strlit("uppercase");
            reveal_strlit("lowercase");
            reveal_strlit("utf");
        }
        let capitalize_table = table_entries(content, MAPS_SECTION, "capitalize");
        let lowercast_table = table_entries(content, MAPS_SECTION, "lowercast");
        let simplify_table = table_entries(content, MAPS_SECTION, "simplify");
        let uppercase_table = table_entries(content, MAPS_SECTION, "uppercase");
        let lowercase_table = table_entries(content, MAPS_SECTION, "lowercase");
        let utf_table = table_entries(content, MAPS_SECTION, "utf");
        let (capitalize_table, lowercast_table, simplify_table, uppercase_table, lowercase_table, utf_table) =
            match (capitalize_table, lowercast_table, simplify_table, uppercase_table, lowercase_table, utf_table) {
            (Some(a), Some(b), Some(c), Some(d), Some(e), Some(f)) => (a, b, c, d, e, f),
            _ => return Err(EncodingError::MissingTable),
        };
        let capitalize = shift_transition(&capitalize_table, None)?;
        let lowercast = shift_transition(&lowercast_table, None)?;
        let simplify = replace_transition(&simplify_table, Some(lowercast.clone()))?;
        let uppercase = replace_transition(&uppercase_table, Some(capitalize.clone()))?;
        let lowercase = replace_transition(&lowercase_table, Some(lowercast.clone()))?;
        let utf = utf_transition(&utf_table)?;
        Ok(Encoding { capitalize, lowercast, simplify, uppercase, lowercase, utf, parsed: true })
    }

    /// Identity tables, an empty code point map, and `parsed` unset.
    pub fn identity() -> (r: Encoding)
        ensures
            r.wf(),
            r@ == default_model(),
    {
        Encoding {
            capitalize: identity(),
            lowercast: identity(),
            simplify: identity(),
            uppercase: identity(),
            lowercase: identity(),
            utf: HashMap::new(),
            parsed: false,
        }
    }

    /// The encoding of the document `content`, when it could be read; the
    /// identity encoding when it could not be read or parsed.
    pub fn new(content: Option<&str>) -> (r: Encoding)
        ensures
            r.wf(),
            r@ == match content {
                Some(c) => match parsed_model(c@) {
                    Ok(m) => m,
                    Err(_) => default_model(),
                },
                None => default_model(),
            },
    {
        match content {
            Some(c) => match Encoding::parse_encodings(c) {
                Ok(e) => e,
                Err(_) => Encoding::identity(),
            },
            None => Encoding::identity(),
        }
    }
}

impl Default for Encoding {
    fn default() -> (r: Encoding)
        ensures
            r.wf(),
            r@ == default_model(),
    {
        Encoding::identity()
    }
}

} // verus!
