//! Reading the text of `bits` and `subbits` hints: comma-separated widths,
//! or comma-separated `whole:fract` pairs.
use crate::hints::Hint;
use crate::stream::DeltaError;
use vstd::prelude::*;
use vstd::string::StrSliceExecFns;

verus! {

/// The pieces of `s` between the separators `sep`, in order.
pub open spec fn pieces(s: Seq<char>, sep: char) -> Seq<Seq<char>>
    decreases s.len(),
{
    if s.len() == 0 {
        seq![Seq::empty()]
    } else {
        let ps = pieces(s.drop_last(), sep);
        if s.last() == sep {
            ps.push(Seq::empty())
        } else {
            ps.update(ps.len() - 1, ps.last().push(s.last()))
        }
    }
}

/// `t` without its leading spaces.
pub open spec fn trim_start(t: Seq<char>) -> Seq<char>
    decreases t.len(),
{
    if t.len() > 0 && t[0] == ' ' {
        trim_start(t.drop_first())
    } else {
        t
    }
}

/// `t` without its trailing spaces.
pub open spec fn trim_end(t: Seq<char>) -> Seq<char>
    decreases t.len(),
{
    if t.len() > 0 && t.last() == ' ' {
        trim_end(t.drop_last())
    } else {
        t
    }
}

/// The decimal digit that `c` is.
pub open spec fn digit_of(c: char) -> Option<int> {
    if c == '0' {
        Some(0)
    } else if c == '1' {
        Some(1)
    } else if c == '2' {
        Some(2)
    } else if c == '3' {
        Some(3)
    } else if c == '4' {
        Some(4)
    } else if c == '5' {
        Some(5)
    } else if c == '6' {
        Some(6)
    } else if c == '7' {
        Some(7)
    } else if c == '8' {
        Some(8)
    } else if c == '9' {
        Some(9)
    } else {
        None
    }
}

/// The number that a run of decimal digits spells.
pub open spec fn digits_value(d: Seq<char>) -> int
    decreases d.len(),
{
    if d.len() == 0 {
        0
    } else {
        digits_value(d.drop_last()) * 10 + digit_of(d.last()).unwrap_or(0)
    }
}

/// Every character of `d` is a decimal digit.
pub open spec fn all_digits(d: Seq<char>) -> bool {
    forall|i: int| 0 <= i < d.len() ==> (#[trigger] digit_of(d[i])) is Some
}

/// The integer that `t` spells: an optional `-` and one to nine digits, with
/// spaces around them.
pub open spec fn number(t: Seq<char>) -> Option<int> {
    let u = trim_end(trim_start(t));
    let neg = u.len() > 0 && u[0] == '-';
    let d = if neg {
        u.drop_first()
    } else {
        u
    };
    if 1 <= d.len() <= 9 && all_digits(d) {
        Some(
            if neg {
                -digits_value(d)
            } else {
                digits_value(d)
            },
        )
    } else {
        None
    }
}

proof fn lemma_pieces_len(s: Seq<char>, sep: char)
    ensures
        pieces(s, sep).len() >= 1,
    decreases s.len(),
{
    if s.len() > 0 {
        lemma_pieces_len(s.drop_last(), sep);
    }
}

proof fn lemma_digits_bound(d: Seq<char>)
    requires
        all_digits(d),
    ensures
        0 <= digits_value(d) < pow10(d.len()),
    decreases d.len(),
{
    if d.len() > 0 {
        assert(all_digits(d.drop_last())) by {
            assert forall|i: int| 0 <= i < d.drop_last().len() implies (#[trigger] digit_of(
                d.drop_last()[i],
            )) is Some by {
                assert(d.drop_last()[i] == d[i]);
            }
        }
        lemma_digits_bound(d.drop_last());
        assert(digit_of(d[d.len() - 1]) is Some);
    }
}

pub open spec fn pow10(n: nat) -> int
    decreases n,
{
    if n == 0 {
        1
    } else {
        10 * pow10((n - 1) as nat)
    }
}

/// The characters of a string.
fn chars_of(s: &str) -> (r: Vec<char>)
    ensures
        r@ == s@,
{
    let n = s.unicode_len();
    let mut r: Vec<char> = Vec::new();
    let mut i: usize = 0;
    while i < n
        invariant
            n == s@.len(),
            0 <= i <= n,
            r@ == s@.take(i as int),
        decreases n - i,
    {
        let c = s.get_char(i);
        r.push(c);
        proof {
            assert(s@.take(i + 1) =~= s@.take(i as int).push(c));
        }
        i = i + 1;
    }
    proof {
        assert(s@.take(n as int) =~= s@);
    }
    r
}

/// Splits `cs` at every `sep`.
fn split(cs: &Vec<char>, sep: char) -> (r: Vec<Vec<char>>)
    ensures
        r@.len() == pieces(cs@, sep).len(),
        forall|k: int| 0 <= k < r@.len() ==> (#[trigger] r@[k])@ == pieces(cs@, sep)[k],
{
    let mut r: Vec<Vec<char>> = Vec::new();
    r.push(Vec::new());
    let mut i: usize = 0;
    proof {
        assert(cs@.take(0) =~= Seq::<char>::empty());
        assert(r@[0]@ =~= Seq::<char>::empty());
    }
    while i < cs.len()
        invariant
            0 <= i <= cs.len(),
            r@.len() == pieces(cs@.take(i as int), sep).len(),
            r@.len() >= 1,
            forall|k: int| 0 <= k < r@.len() ==> (#[trigger] r@[k])@ == pieces(cs@.take(i as int), sep)[k],
        decreases cs.len() - i,
    {
        let c = cs[i];
        proof {
            assert(cs@.take(i + 1).drop_last() =~= cs@.take(i as int));
            lemma_pieces_len(cs@.take(i as int), sep);
        }
        if c == sep {
            r.push(Vec::new());
            proof {
                let ps = pieces(cs@.take(i + 1), sep);
                assert forall|k: int| 0 <= k < r@.len() implies (#[trigger] r@[k])@ == ps[k] by {
                    if k == r@.len() - 1 {
                        assert(r@[k]@ =~= Seq::<char>::empty());
                    }
                }
            }
        } else {
            let last = r.len() - 1;
            let mut cur = r.pop().unwrap();
            cur.push(c);
            r.push(cur);
            proof {
                let ps = pieces(cs@.take(i + 1), sep);
                assert forall|k: int| 0 <= k < r@.len() implies (#[trigger] r@[k])@ == ps[k] by {
                    if k == last {
                        assert(r@[k]@ =~= pieces(cs@.take(i as int), sep)[k].push(c));
                    }
                }
            }
        }
        i = i + 1;
    }
    proof {
        assert(cs@.take(cs.len() as int) =~= cs@);
    }
    r
}

/// The decimal digit that `c` is.
fn digit(c: char) -> (r: Option<u32>)
    ensures
        match digit_of(c) {
            Some(d) => r == Some(d as u32),
            None => r is None,
        },
{
    if c == '0' {
        Some(0)
    } else if c == '1' {
        Some(1)
    } else if c == '2' {
        Some(2)
    } else if c == '3' {
        Some(3)
    } else if c == '4' {
        Some(4)
    } else if c == '5' {
        Some(5)
    } else if c == '6' {
        Some(6)
    } else if c == '7' {
        Some(7)
    } else if c == '8' {
        Some(8)
    } else if c == '9' {
        Some(9)
    } else {
        None
    }
}

/// Where `t` starts and ends once its surrounding spaces are gone.
fn trim_bounds(t: &Vec<char>) -> (r: (usize, usize))
    ensures
        r.0 <= r.1 <= t@.len(),
        trim_end(trim_start(t@)) == t@.subrange(r.0 as int, r.1 as int),
{
    let n = t.len();
    let mut lo: usize = 0;
    proof {
        assert(t@.skip(0) =~= t@);
    }
    while lo < n && t[lo] == ' '
        invariant
            0 <= lo <= n == t@.len(),
            trim_start(t@) == trim_start(t@.skip(lo as int)),
        decreases n - lo,
    {
        proof {
            assert(t@.skip(lo as int).drop_first() =~= t@.skip(lo + 1));
        }
        lo = lo + 1;
    }
    proof {
        assert(trim_start(t@.skip(lo as int)) == t@.skip(lo as int));
        assert(t@.skip(lo as int) =~= t@.subrange(lo as int, n as int));
    }
    let mut hi: usize = n;
    while hi > lo && t[hi - 1] == ' '
        invariant
            0 <= lo <= hi <= n == t@.len(),
            trim_end(trim_start(t@)) == trim_end(t@.subrange(lo as int, hi as int)),
        decreases hi - lo,
    {
        proof {
            assert(t@.subrange(lo as int, hi as int).drop_last() =~= t@.subrange(lo as int, hi - 1));
        }
        hi = hi - 1;
    }
    (lo, hi)
}

/// The number that the digits of `t` from `start` to `hi` spell, if they are
/// one to nine digits.
fn parse_digits(t: &Vec<char>, start: usize, hi: usize) -> (r: Option<i64>)
    requires
        start <= hi <= t@.len(),
    ensures
        ({
            let d = t@.subrange(start as int, hi as int);
            if 1 <= d.len() <= 9 && all_digits(d) {
                r == Some(digits_value(d) as i64) && 0 <= digits_value(d) < 1_000_000_000
            } else {
                r is None
            }
        }),
{
    let ghost d = t@.subrange(start as int, hi as int);
    if hi - start < 1 || hi - start > 9 {
        return None;
    }
    let mut acc: i64 = 0;
    let mut k: usize = start;
    proof {
        assert(t@.subrange(start as int, start as int) =~= Seq::<char>::empty());
    }
    while k < hi
        invariant
            start <= k <= hi <= t@.len(),
            hi - start <= 9,
            d == t@.subrange(start as int, hi as int),
            acc as int == digits_value(t@.subrange(start as int, k as int)),
            all_digits(t@.subrange(start as int, k as int)),
        decreases hi - k,
    {
        let ghost pre = t@.subrange(start as int, k as int);
        proof {
            assert(t@.subrange(start as int, k + 1).drop_last() =~= pre);
            lemma_digits_bound(pre);
            lemma_pow10_9(pre.len());
        }
        match digit(t[k]) {
            Some(x) => {
                acc = acc * 10 + x as i64;
            },
            None => {
                proof {
                    assert(d[k - start] == t@[k as int]);
                    assert(digit_of(d[k - start]) is None);
                }
                return None;
            },
        }
        proof {
            let next = t@.subrange(start as int, k + 1);
            assert forall|i: int| 0 <= i < next.len() implies (#[trigger] digit_of(next[i])) is Some by {
                if i < pre.len() {
                    assert(next[i] == pre[i]);
                }
            }
        }
        k = k + 1;
    }
    proof {
        assert(t@.subrange(start as int, k as int) == d);
        lemma_digits_bound(d);
        lemma_pow10_9(d.len());
    }
    Some(acc)
}

/// The integer that `t` spells, if it spells one.
fn parse_number(t: &Vec<char>) -> (r: Option<i64>)
    ensures
        match number(t@) {
            Some(x) => r == Some(x as i64) && -1_000_000_000 < x < 1_000_000_000,
            None => r is None,
        },
{
    let (lo, hi) = trim_bounds(t);
    let ghost u = t@.subrange(lo as int, hi as int);
    let neg = hi > lo && t[lo] == '-';
    let start: usize = if neg { lo + 1 } else { lo };
    proof {
        if neg {
            assert(u.drop_first() =~= t@.subrange(start as int, hi as int));
        } else {
            assert(u =~= t@.subrange(start as int, hi as int));
        }
    }
    match parse_digits(t, start, hi) {
        Some(x) => if neg {
            Some(-x)
        } else {
            Some(x)
        },
        None => None,
    }
}

proof fn lemma_pow10_9(n: nat)
    requires
        n <= 9,
    ensures
        pow10(n) <= 1_000_000_000,
{
    reveal_with_fuel(pow10, 10);
}

/// The widths that a `subbits` text lists, where each piece is a number of
/// zero or more.
pub open spec fn widths_text(s: Seq<char>) -> Option<Seq<u32>> {
    let ps = pieces(s, ',');
    if forall|k: int| 0 <= k < ps.len() ==> (#[trigger] number(ps[k])) is Some && number(ps[k])->0 >= 0 {
        Some(Seq::new(ps.len(), |k: int| number(ps[k])->0 as u32))
    } else {
        None
    }
}

/// The `whole:fract` pair that a piece spells.
pub open spec fn pair_text(p: Seq<char>) -> Option<(i32, i32)> {
    let q = pieces(p, ':');
    if q.len() == 2 && number(q[0]) is Some && number(q[1]) is Some {
        Some((number(q[0])->0 as i32, number(q[1])->0 as i32))
    } else {
        None
    }
}

/// The pairs that a fixed-point `subbits` text lists.
pub open spec fn pairs_text(s: Seq<char>) -> Option<Seq<(i32, i32)>> {
    let ps = pieces(s, ',');
    if forall|k: int| 0 <= k < ps.len() ==> (#[trigger] pair_text(ps[k])) is Some {
        Some(Seq::new(ps.len(), |k: int| pair_text(ps[k])->0))
    } else {
        None
    }
}

/// The text names fixed-point pairs: it holds a `:`.
pub open spec fn has_colon(s: Seq<char>) -> bool {
    pieces(s, ':').len() > 1
}

/// The pair that a piece spells, if it spells one.
fn parse_pair(p: &Vec<char>) -> (r: Option<(i32, i32)>)
    ensures
        r == pair_text(p@),
{
    let q = split(p, ':');
    if q.len() != 2 {
        return None;
    }
    let a = parse_number(&q[0]);
    let b = parse_number(&q[1]);
    match (a, b) {
        (Some(x), Some(y)) => Some((x as i32, y as i32)),
        _ => None,
    }
}

/// The widths that a `subbits` text lists.
pub fn parse_widths(s: &str) -> (r: Result<Vec<u32>, DeltaError>)
    ensures
        match widths_text(s@) {
            Some(ws) => r is Ok && r->Ok_0@ == ws,
            None => r == Err::<Vec<u32>, DeltaError>(DeltaError::InvalidHint),
        },
{
    let cs = chars_of(s);
    let ps = split(&cs, ',');
    let ghost sp = pieces(s@, ',');
    let mut ws: Vec<u32> = Vec::new();
    let mut k: usize = 0;
    while k < ps.len()
        invariant
            cs@ == s@,
            sp == pieces(s@, ','),
            ps@.len() == sp.len(),
            forall|j: int| 0 <= j < ps@.len() ==> (#[trigger] ps@[j])@ == sp[j],
            0 <= k <= ps.len(),
            ws@.len() == k,
            forall|j: int| 0 <= j < k ==> (#[trigger] number(sp[j])) is Some && number(sp[j])->0 >= 0 && ws@[j]
                == number(sp[j])->0 as u32,
        decreases ps.len() - k,
    {
        match parse_number(&ps[k]) {
            Some(x) => {
                if x < 0 {
                    return Err(DeltaError::InvalidHint);
                }
                ws.push(x as u32);
            },
            None => {
                return Err(DeltaError::InvalidHint);
            },
        }
        k = k + 1;
    }
    proof {
        assert(ws@ =~= Seq::new(sp.len(), |j: int| number(sp[j])->0 as u32));
    }
    Ok(ws)
}

/// The pairs that a fixed-point `subbits` text lists.
pub fn parse_pairs(s: &str) -> (r: Result<Vec<(i32, i32)>, DeltaError>)
    ensures
        match pairs_text(s@) {
            Some(ps) => r is Ok && r->Ok_0@ == ps,
            None => r == Err::<Vec<(i32, i32)>, DeltaError>(DeltaError::InvalidHint),
        },
{
    let cs = chars_of(s);
    let ps = split(&cs, ',');
    let ghost sp = pieces(s@, ',');
    let mut out: Vec<(i32, i32)> = Vec::new();
    let mut k: usize = 0;
    while k < ps.len()
        invariant
            cs@ == s@,
            sp == pieces(s@, ','),
            ps@.len() == sp.len(),
            forall|j: int| 0 <= j < ps@.len() ==> (#[trigger] ps@[j])@ == sp[j],
            0 <= k <= ps.len(),
            out@.len() == k,
            forall|j: int| 0 <= j < k ==> (#[trigger] pair_text(sp[j])) is Some && out@[j] == pair_text(sp[j])->0,
        decreases ps.len() - k,
    {
        match parse_pair(&ps[k]) {
            Some(p) => {
                out.push(p);
            },
            None => {
                return Err(DeltaError::InvalidHint);
            },
        }
        k = k + 1;
    }
    proof {
        assert(out@ =~= Seq::new(sp.len(), |j: int| pair_text(sp[j])->0));
    }
    Ok(out)
}

impl Hint {
    /// The hint that a `bits` text gives: `N` bits for an integer, or
    /// `I:F` for a fixed-point float.
    pub fn bits_from_text(value: &str) -> (r: Result<Hint, DeltaError>)
        ensures
            !has_colon(value@) ==> match number(value@) {
                Some(n) => if n >= 0 {
                    r is Ok && r->Ok_0 == Hint::Bits(n as u32)
                } else {
                    r is Err && r->Err_0 == DeltaError::InvalidHint
                },
                None => r is Err && r->Err_0 == DeltaError::InvalidHint,
            },
            has_colon(value@) ==> match pair_text(value@) {
                Some(p) => r is Ok && r->Ok_0 == Hint::FixedBits(p.0, p.1),
                None => r is Err && r->Err_0 == DeltaError::InvalidHint,
            },
    {
        let cs = chars_of(value);
        let q = split(&cs, ':');
        if q.len() > 1 {
            return match parse_pair(&cs) {
                Some((a, b)) => Ok(Hint::FixedBits(a, b)),
                None => Err(DeltaError::InvalidHint),
            };
        }
        match parse_number(&cs) {
            Some(n) => if n >= 0 {
                Ok(Hint::Bits(n as u32))
            } else {
                Err(DeltaError::InvalidHint)
            },
            None => Err(DeltaError::InvalidHint),
        }
    }

    /// The hint that a `subbits` text gives: integer widths, or fixed-point
    /// pairs where the text holds a `:`.
    pub fn subbits_from_text(value: &str) -> (r: Result<Hint, DeltaError>)
        ensures
            !has_colon(value@) ==> match widths_text(value@) {
                Some(ws) => r is Ok && r->Ok_0 is SubBits && r->Ok_0->SubBits_0@ == ws,
                None => r is Err && r->Err_0 == DeltaError::InvalidHint,
            },
            has_colon(value@) ==> match pairs_text(value@) {
                Some(ps) => r is Ok && r->Ok_0 is FixedSubBits && r->Ok_0->FixedSubBits_0@ == ps,
                None => r is Err && r->Err_0 == DeltaError::InvalidHint,
            },
    {
        let cs = chars_of(value);
        let q = split(&cs, ':');
        if q.len() > 1 {
            let ps = parse_pairs(value)?;
            Ok(Hint::FixedSubBits(ps))
        } else {
            let ws = parse_widths(value)?;
            Ok(Hint::SubBits(ws))
        }
    }
}

} // verus!
