//! Text handling for the command line and the environment: whitespace trimming and
//! comma-separated lists of decimal numbers.
use vstd::prelude::*;

verus! {

/// Why a decimal number could not be read.
#[derive(Debug, Clone, Copy, PartialEq, Eq, Structural)]
pub enum IntErrorKind {
    Empty,
    InvalidDigit,
    PosOverflow,
}

/// The first item of a list that is not a number, after trimming, and why.
#[derive(Debug)]
pub struct ListError {
    pub item: Vec<char>,
    pub kind: IntErrorKind,
}

/// The Unicode `White_Space` characters.
pub open spec fn is_ws(c: char) -> bool {
    let x = c as u32;
    ||| 0x9 <= x <= 0xd
    ||| x == 0x20
    ||| x == 0x85
    ||| x == 0xa0
    ||| x == 0x1680
    ||| 0x2000 <= x <= 0x200a
    ||| x == 0x2028
    ||| x == 0x2029
    ||| x == 0x202f
    ||| x == 0x205f
    ||| x == 0x3000
}

/// `s` without its leading whitespace.
pub open spec fn trim_start_spec(s: Seq<char>) -> Seq<char>
    decreases s.len(),
{
    if s.len() > 0 && is_ws(s[0]) {
        trim_start_spec(s.drop_first())
    } else {
        s
    }
}

/// `s` without its trailing whitespace.
pub open spec fn trim_end_spec(s: Seq<char>) -> Seq<char>
    decreases s.len(),
{
    if s.len() > 0 && is_ws(s.last()) {
        trim_end_spec(s.drop_last())
    } else {
        s
    }
}

/// `s` without leading and trailing whitespace.
pub open spec fn trim_spec(s: Seq<char>) -> Seq<char> {
    trim_end_spec(trim_start_spec(s))
}

/// The position of the first comma of `s`, or its length if it has none.
pub open spec fn first_comma(s: Seq<char>) -> int
    decreases s.len(),
{
    if s.len() == 0 || s[0] == ',' {
        0
    } else {
        1 + first_comma(s.drop_first())
    }
}

/// The pieces of `s` between its commas, empty pieces included.
pub open spec fn split_commas(s: Seq<char>) -> Seq<Seq<char>>
    decreases s.len(),
{
    let k = first_comma(s);
    if k < 0 || k >= s.len() {
        seq![s]
    } else {
        seq![s.take(k)] + split_commas(s.skip(k + 1))
    }
}

pub open spec fn is_digit(c: char) -> bool {
    '0' <= c <= '9'
}

/// Reads the decimal digits of `t` from position `i` onwards after the value `acc`: the
/// first character that is not a digit is an invalid digit, and the first prefix whose
/// value exceeds `max` is an overflow.
pub open spec fn parse_digits(t: Seq<char>, i: int, acc: int, max: int) -> Result<u64, IntErrorKind>
    decreases t.len() - i,
{
    if i >= t.len() {
        Ok(acc as u64)
    } else if !is_digit(t[i]) {
        Err(IntErrorKind::InvalidDigit)
    } else {
        let v = acc * 10 + (t[i] as int - '0' as int);
        if v > max {
            Err(IntErrorKind::PosOverflow)
        } else {
            parse_digits(t, i + 1, v, max)
        }
    }
}

/// An unsigned decimal number no larger than `max`, with an optional leading `+`.
pub open spec fn parse_uint_spec(t: Seq<char>, max: u64) -> Result<u64, IntErrorKind> {
    if t.len() == 0 {
        Err(IntErrorKind::Empty)
    } else if (t[0] == '+' || t[0] == '-') && t.len() == 1 {
        Err(IntErrorKind::InvalidDigit)
    } else if t[0] == '+' {
        parse_digits(t, 1, 0, max as int)
    } else {
        parse_digits(t, 0, 0, max as int)
    }
}

/// The numbers of the trimmed, non-empty pieces, or the first piece that is not one.
pub open spec fn parse_items(parts: Seq<Seq<char>>, max: u64) -> Result<
    Seq<u64>,
    (Seq<char>, IntErrorKind),
>
    decreases parts.len(),
{
    if parts.len() == 0 {
        Ok(Seq::empty())
    } else {
        let t = trim_spec(parts[0]);
        let rest = parse_items(parts.drop_first(), max);
        if t.len() == 0 {
            rest
        } else {
            match parse_uint_spec(t, max) {
                Err(kind) => Err((t, kind)),
                Ok(v) => match rest {
                    Ok(vs) => Ok(seq![v] + vs),
                    Err(e) => Err(e),
                },
            }
        }
    }
}

/// A comma-separated list of numbers no larger than `max`: the pieces between commas,
/// trimmed, with the empty ones skipped.
pub open spec fn parse_list_spec(s: Seq<char>, max: u64) -> Result<
    Seq<u64>,
    (Seq<char>, IntErrorKind),
> {
    parse_items(split_commas(s), max)
}

/// A parsed list as its values, or its error as the item and the kind.
pub open spec fn list_view(r: Result<Vec<u64>, ListError>) -> Result<
    Seq<u64>,
    (Seq<char>, IntErrorKind),
> {
    match r {
        Ok(v) => Ok(v@),
        Err(e) => Err((e.item@, e.kind)),
    }
}

/// Puts numbers already read in front of the outcome for the rest of a list.
pub open spec fn prepend(
    done: Seq<u64>,
    rest: Result<Seq<u64>, (Seq<char>, IntErrorKind)>,
) -> Result<Seq<u64>, (Seq<char>, IntErrorKind)> {
    match rest {
        Ok(vs) => Ok(done + vs),
        Err(e) => Err(e),
    }
}

/// The characters of a string.
pub fn chars_of(s: &str) -> (v: Vec<char>)
    ensures
        v@ == s@,
{
    broadcast use vstd::string::axiom_spec_iter;

    let mut v: Vec<char> = Vec::new();
    for c in it: s.chars()
        invariant
            v@ == it.seq().take(it.index() as int),
            it.seq() == s@,
    {
        v.push(c);
    }
    v
}

/// Whether a character is Unicode whitespace.
pub fn is_whitespace(c: char) -> (r: bool)
    ensures
        r == is_ws(c),
{
    let x = c as u32;
    (0x9 <= x && x <= 0xd) || x == 0x20 || x == 0x85 || x == 0xa0 || x == 0x1680 || (0x2000 <= x
        && x <= 0x200a) || x == 0x2028 || x == 0x2029 || x == 0x202f || x == 0x205f || x == 0x3000
}

/// The bounds of `v[start..end]` with its leading and trailing whitespace left out.
pub fn trim_bounds(v: &Vec<char>, start: usize, end: usize) -> (r: (usize, usize))
    requires
        start <= end <= v.len(),
    ensures
        start <= r.0 <= r.1 <= end,
        v@.subrange(r.0 as int, r.1 as int) == trim_spec(v@.subrange(start as int, end as int)),
{
    let mut a = start;
    while a < end && is_whitespace(v[a])
        invariant
            start <= a <= end <= v.len(),
            trim_start_spec(v@.subrange(start as int, end as int)) == trim_start_spec(
                v@.subrange(a as int, end as int),
            ),
        decreases end - a,
    {
        proof {
            assert(v@.subrange(a as int, end as int).drop_first() =~= v@.subrange(
                a + 1,
                end as int,
            ));
        }
        a = a + 1;
    }
    proof {
        assert(trim_start_spec(v@.subrange(a as int, end as int)) == v@.subrange(
            a as int,
            end as int,
        ));
    }
    let mut b = end;
    while b > a && is_whitespace(v[b - 1])
        invariant
            start <= a <= b <= end <= v.len(),
            trim_end_spec(v@.subrange(a as int, end as int)) == trim_end_spec(
                v@.subrange(a as int, b as int),
            ),
        decreases b - a,
    {
        proof {
            assert(v@.subrange(a as int, b as int).drop_last() =~= v@.subrange(
                a as int,
                b - 1,
            ));
        }
        b = b - 1;
    }
    (a, b)
}

/// Whether a string is empty once trimmed.
pub fn is_blank(s: &str) -> (r: bool)
    ensures
        r == (trim_spec(s@).len() == 0),
{
    let v = chars_of(s);
    let (a, b) = trim_bounds(&v, 0, v.len());
    proof {
        assert(v@.subrange(0, v@.len() as int) =~= v@);
    }
    a == b
}

/// Reads an unsigned decimal number no larger than `max` from `v[start..end]`.
pub fn parse_uint(v: &Vec<char>, start: usize, end: usize, max: u64) -> (r: Result<
    u64,
    IntErrorKind,
>)
    requires
        start <= end <= v.len(),
    ensures
        r == parse_uint_spec(v@.subrange(start as int, end as int), max),
{
    let ghost t = v@.subrange(start as int, end as int);
    if start == end {
        return Err(IntErrorKind::Empty);
    }
    let first = v[start];
    if (first == '+' || first == '-') && end - start == 1 {
        return Err(IntErrorKind::InvalidDigit);
    }
    let mut i = if first == '+' {
        start + 1
    } else {
        start
    };
    let ghost i0 = (i - start) as int;
    let mut acc: u64 = 0;
    proof {
        assert(t[0] == first);
    }
    while i < end
        invariant
            start <= i <= end <= v.len(),
            parse_uint_spec(t, max) == parse_digits(t, i0, 0, max as int),
            t == v@.subrange(start as int, end as int),
            acc <= max,
            parse_digits(t, i0, 0, max as int) == parse_digits(t, i - start, acc as int, max as int),
        decreases end - i,
    {
        let c = v[i];
        proof {
            assert(t[i - start] == c);
        }
        if !('0' <= c && c <= '9') {
            return Err(IntErrorKind::InvalidDigit);
        }
        let d = (c as u32 - '0' as u32) as u128;
        let next = acc as u128 * 10 + d;
        if next > max as u128 {
            return Err(IntErrorKind::PosOverflow);
        }
        acc = next as u64;
        i = i + 1;
    }
    Ok(acc)
}

proof fn lemma_first_comma(s: Seq<char>, k: int)
    requires
        0 <= k <= s.len(),
        forall|j: int| 0 <= j < k ==> s[j] != ',',
        k == s.len() || s[k] == ',',
    ensures
        first_comma(s) == k,
    decreases k,
{
    if k > 0 {
        lemma_first_comma(s.drop_first(), k - 1);
    }
}

/// The outcome of one piece of a list.
pub open spec fn piece_outcome(piece: Seq<char>, max: u64) -> Result<Option<u64>, (Seq<char>, IntErrorKind)> {
    let t = trim_spec(piece);
    if t.len() == 0 {
        Ok(None)
    } else {
        match parse_uint_spec(t, max) {
            Ok(n) => Ok(Some(n)),
            Err(kind) => Err((t, kind)),
        }
    }
}

/// Reads the piece `v[start..end]` of a list: nothing if it is blank, else its number or
/// the reason it is not one.
fn read_piece(v: &Vec<char>, start: usize, end: usize, max: u64) -> (r: Result<Option<u64>, ListError>)
    requires
        start <= end <= v.len(),
    ensures
        piece_outcome(v@.subrange(start as int, end as int), max) == match r {
            Ok(x) => Ok(x),
            Err(e) => Err((e.item@, e.kind)),
        },
{
    let (a, b) = trim_bounds(v, start, end);
    if a == b {
        return Ok(None);
    }
    match parse_uint(v, a, b, max) {
        Ok(n) => Ok(Some(n)),
        Err(kind) => {
            let mut item: Vec<char> = Vec::new();
            let mut k = a;
            while k < b
                invariant
                    a <= k <= b <= v.len(),
                    item@ == v@.subrange(a as int, k as int),
                decreases b - k,
            {
                item.push(v[k]);
                proof {
                    assert(item@ =~= v@.subrange(a as int, k + 1));
                }
                k = k + 1;
            }
            Err(ListError { item, kind })
        },
    }
}

/// The outcome of a list whose first piece is `piece`.
proof fn lemma_parse_items_cons(piece: Seq<char>, rest: Seq<Seq<char>>, max: u64)
    ensures
        parse_items(seq![piece] + rest, max) == match piece_outcome(piece, max) {
            Ok(None) => parse_items(rest, max),
            Ok(Some(n)) => prepend(seq![n], parse_items(rest, max)),
            Err(e) => Err(e),
        },
{
    let parts = seq![piece] + rest;
    assert(parts[0] == piece);
    assert(parts.drop_first() =~= rest);
    match parse_items(rest, max) {
        Ok(vs) => {},
        Err(e) => {},
    }
}

proof fn lemma_prepend_push(out: Seq<u64>, n: u64, rest: Result<Seq<u64>, (Seq<char>, IntErrorKind)>)
    ensures
        prepend(out, prepend(seq![n], rest)) == prepend(out.push(n), rest),
{
    match rest {
        Ok(vs) => {
            assert(out + (seq![n] + vs) =~= out.push(n) + vs);
        },
        Err(e) => {},
    }
}

/// Reads a comma-separated list of numbers no larger than `max`; pieces are trimmed and
/// empty pieces are skipped, and no list at all reads as an empty one.
pub fn parse_number_list(value: Option<&str>, max: u64) -> (r: Result<Vec<u64>, ListError>)
    ensures
        value is None ==> list_view(r) == Ok::<Seq<u64>, (Seq<char>, IntErrorKind)>(Seq::empty()),
        value is Some ==> list_view(r) == parse_list_spec(value->Some_0@, max),
{
    let s = match value {
        None => {
            return Ok(Vec::new());
        },
        Some(s) => s,
    };
    let v = chars_of(s);
    let mut out: Vec<u64> = Vec::new();
    let mut start: usize = 0;
    let mut i: usize = 0;
    proof {
        assert(v@.skip(0) =~= v@);
        match parse_list_spec(s@, max) {
            Ok(vs) => {
                assert(Seq::<u64>::empty() + vs =~= vs);
            },
            Err(e) => {},
        }
    }
    while i < v.len()
        invariant
            value == Some(s),
            start <= i <= v.len(),
            v@ == s@,
            forall|j: int| start <= j < i ==> v@[j] != ',',
            parse_list_spec(s@, max) == prepend(
                out@,
                parse_items(split_commas(v@.skip(start as int)), max),
            ),
        decreases v.len() - i,
    {
        if v[i] == ',' {
            let ghost rest = v@.skip(start as int);
            let ghost piece = v@.subrange(start as int, i as int);
            proof {
                lemma_first_comma(rest, i - start);
                assert(rest.take(i - start) =~= piece);
                assert(rest.skip(i - start + 1) =~= v@.skip(i + 1));
                lemma_parse_items_cons(piece, split_commas(v@.skip(i + 1)), max);
            }
            match read_piece(&v, start, i, max) {
                Err(e) => {
                    return Err(e);
                },
                Ok(Some(n)) => {
                    proof {
                        lemma_prepend_push(out@, n, parse_items(split_commas(v@.skip(i + 1)), max));
                    }
                    out.push(n);
                },
                Ok(None) => {},
            }
            start = i + 1;
        }
        i = i + 1;
    }
    let ghost rest = v@.skip(start as int);
    let ghost piece = v@.subrange(start as int, v.len() as int);
    proof {
        lemma_first_comma(rest, v.len() - start);
        assert(rest =~= piece);
        assert(split_commas(rest) =~= seq![piece] + Seq::<Seq<char>>::empty());
        lemma_parse_items_cons(piece, Seq::<Seq<char>>::empty(), max);
        assert(parse_items(Seq::<Seq<char>>::empty(), max) == Ok::<
            Seq<u64>,
            (Seq<char>, IntErrorKind),
        >(Seq::empty()));
    }
    match read_piece(&v, start, v.len(), max) {
        Err(e) => {
            return Err(e);
        },
        Ok(Some(n)) => {
            proof {
                lemma_prepend_push(out@, n, Ok(Seq::empty()));
            }
            out.push(n);
        },
        Ok(None) => {},
    }
    proof {
        assert(out@ + Seq::<u64>::empty() =~= out@);
    }
    Ok(out)
}

} // verus!
