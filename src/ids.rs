use vstd::prelude::*;

verus! {

/// Why a list of ids could not be read.
#[derive(Clone, Copy, Debug, PartialEq, Eq, Structural)]
pub enum IdsError {
    /// A non-blank entry is not an unsigned 32-bit decimal number.
    InvalidId,
}

/// The characters of `s`, in order.
fn chars_of(s: &str) -> (r: Vec<char>)
    ensures
        r@ == s@,
{
    let mut r: Vec<char> = Vec::new();
    for c in it: s.chars()
        invariant
            r@ == it.seq().subrange(0, it.index() as int),
            it.seq() == s@,
    {
        r.push(c);
    }
    r
}

/// `c` is white space in the Unicode sense (the `White_Space` property).
pub open spec fn is_space(c: char) -> bool {
    let u = c as u32;
    (0x09 <= u <= 0x0d) || u == 0x20 || u == 0x85 || u == 0xa0 || u == 0x1680 || (0x2000 <= u
        <= 0x200a) || u == 0x2028 || u == 0x2029 || u == 0x202f || u == 0x205f || u == 0x3000
}

/// `s` without its leading white space.
pub open spec fn trim_start(s: Seq<char>) -> Seq<char>
    decreases s.len(),
{
    if s.len() > 0 && is_space(s[0]) {
        trim_start(s.drop_first())
    } else {
        s
    }
}

/// `s` without its trailing white space.
pub open spec fn trim_end(s: Seq<char>) -> Seq<char>
    decreases s.len(),
{
    if s.len() > 0 && is_space(s.last()) {
        trim_end(s.drop_last())
    } else {
        s
    }
}

/// `s` without leading and trailing white space.
pub open spec fn trim(s: Seq<char>) -> Seq<char> {
    trim_end(trim_start(s))
}

/// The pieces of `s` between commas, in order; a string without commas is
/// one piece, and an empty string is one empty piece.
pub open spec fn split_commas(s: Seq<char>) -> Seq<Seq<char>>
    decreases s.len(),
{
    if s.len() == 0 {
        seq![Seq::empty()]
    } else {
        let p = split_commas(s.drop_last());
        if s.last() == ',' {
            p.push(Seq::empty())
        } else {
            p.update(p.len() - 1, p.last().push(s.last()))
        }
    }
}

/// `c` is an ASCII decimal digit.
pub open spec fn is_digit(c: char) -> bool {
    '0' <= c <= '9'
}

/// The value of a string of decimal digits.
pub open spec fn digits_value(d: Seq<char>) -> nat
    decreases d.len(),
{
    if d.len() == 0 {
        0
    } else {
        10 * digits_value(d.drop_last()) + ((d.last() as u32) - 48) as nat
    }
}

/// `t` without a leading `+`, if it has one.
pub open spec fn unsigned_part(t: Seq<char>) -> Seq<char> {
    if t.len() > 0 && t[0] == '+' {
        t.drop_first()
    } else {
        t
    }
}

/// Every character of `d` is a decimal digit.
pub open spec fn all_digits(d: Seq<char>) -> bool {
    forall|i: int| 0 <= i < d.len() ==> is_digit(#[trigger] d[i])
}

/// The unsigned 32-bit number that `t` spells: an optional `+`, then one or
/// more decimal digits whose value fits in 32 bits.
pub open spec fn number(t: Seq<char>) -> Option<u32> {
    let d = unsigned_part(t);
    if d.len() > 0 && all_digits(d) && digits_value(d) <= u32::MAX {
        Some(digits_value(d) as u32)
    } else {
        None
    }
}

/// The ids that `pieces` spell, blank pieces skipped; `None` where a
/// non-blank piece spells no number.
pub open spec fn ids_of(pieces: Seq<Seq<char>>) -> Option<Seq<u32>>
    decreases pieces.len(),
{
    if pieces.len() == 0 {
        Some(Seq::empty())
    } else {
        match ids_of(pieces.drop_last()) {
            None => None,
            Some(v) => {
                let t = trim(pieces.last());
                if t.len() == 0 {
                    Some(v)
                } else {
                    match number(t) {
                        Some(x) => Some(v.push(x)),
                        None => None,
                    }
                }
            },
        }
    }
}

proof fn lemma_trim_start(s: Seq<char>, k: int)
    requires
        0 <= k <= s.len(),
        forall|i: int| 0 <= i < k ==> is_space(#[trigger] s[i]),
        k == s.len() || !is_space(s[k]),
    ensures
        trim_start(s) == s.subrange(k, s.len() as int),
    decreases k,
{
    if k == 0 {
        assert(s.subrange(0, s.len() as int) =~= s);
    } else {
        let t = s.drop_first();
        assert forall|i: int| 0 <= i < k - 1 implies is_space(#[trigger] t[i]) by {
            assert(t[i] == s[i + 1]);
        }
        if k < s.len() {
            assert(t[k - 1] == s[k]);
        }
        lemma_trim_start(t, k - 1);
        assert(t.subrange(k - 1, t.len() as int) =~= s.subrange(k, s.len() as int));
    }
}

proof fn lemma_trim_end(s: Seq<char>, k: int)
    requires
        0 <= k <= s.len(),
        forall|i: int| k <= i < s.len() ==> is_space(#[trigger] s[i]),
        k == 0 || !is_space(s[k - 1]),
    ensures
        trim_end(s) == s.subrange(0, k),
    decreases s.len() - k,
{
    if k == s.len() {
        assert(s.subrange(0, k) =~= s);
    } else {
        let t = s.drop_last();
        assert forall|i: int| k <= i < t.len() implies is_space(#[trigger] t[i]) by {
            assert(t[i] == s[i]);
        }
        if k > 0 {
            assert(t[k - 1] == s[k - 1]);
        }
        lemma_trim_end(t, k);
        assert(t.subrange(0, k) =~= s.subrange(0, k));
    }
}

proof fn lemma_digits_value_prefix(d: Seq<char>, k: int)
    requires
        0 <= k <= d.len(),
    ensures
        digits_value(d.subrange(0, k)) <= digits_value(d),
    decreases d.len() - k,
{
    if k < d.len() {
        lemma_digits_value_prefix(d, k + 1);
        let p = d.subrange(0, k + 1);
        assert(p.drop_last() =~= d.subrange(0, k));
    } else {
        assert(d.subrange(0, k) =~= d);
    }
}

/// The number that `chars[lo..hi)` spells, as `number` says.
fn read_number(chars: &Vec<char>, lo: usize, hi: usize) -> (r: Option<u32>)
    requires
        lo <= hi <= chars.len(),
    ensures
        r == number(chars@.subrange(lo as int, hi as int)),
{
    let ghost t = chars@.subrange(lo as int, hi as int);
    let mut start = lo;
    if lo < hi && chars[lo] == '+' {
        start = lo + 1;
    }
    let ghost d = chars@.subrange(start as int, hi as int);
    assert(d == unsigned_part(t)) by {
        if t.len() > 0 && t[0] == '+' {
            assert(d =~= t.drop_first());
        } else {
            assert(d =~= t);
        }
    }
    if start == hi {
        return None;
    }
    let mut v: u64 = 0;
    let mut i: usize = start;
    while i < hi
        invariant
            lo <= start < hi <= chars.len(),
            start <= i <= hi,
            t == chars@.subrange(lo as int, hi as int),
            d == chars@.subrange(start as int, hi as int),
            d == unsigned_part(t),
            v == digits_value(d.subrange(0, i - start)),
            v <= u32::MAX,
            forall|k: int| 0 <= k < i - start ==> is_digit(#[trigger] d[k]),
        decreases hi - i,
    {
        let c = chars[i];
        if !(c >= '0' && c <= '9') {
            assert(!is_digit(d[i - start]));
            return None;
        }
        let ghost p = d.subrange(0, i - start + 1);
        assert(p.drop_last() =~= d.subrange(0, i - start));
        assert(p.last() == c);
        let next: u64 = v * 10 + ((c as u32) - 48) as u64;
        if next > 4294967295u64 {
            proof {
                lemma_digits_value_prefix(d, i - start + 1);
            }
            return None;
        }
        v = next;
        i = i + 1;
    }
    assert(d.subrange(0, hi - start) =~= d);
    Some(v as u32)
}

/// The id that `chars[lo..hi)` spells once trimmed: `Ok(None)` for a blank
/// piece, `Err` for one that spells no number.
fn read_piece(chars: &Vec<char>, lo: usize, hi: usize) -> (r: Result<Option<u32>, IdsError>)
    requires
        lo <= hi <= chars.len(),
    ensures
        ({
            let t = trim(chars@.subrange(lo as int, hi as int));
            if t.len() == 0 {
                r == Ok::<Option<u32>, IdsError>(None)
            } else {
                match number(t) {
                    Some(x) => r == Ok::<Option<u32>, IdsError>(Some(x)),
                    None => r == Err::<Option<u32>, IdsError>(IdsError::InvalidId),
                }
            }
        }),
{
    let ghost s = chars@.subrange(lo as int, hi as int);
    let mut a = lo;
    while a < hi && is_space_char(chars[a])
        invariant
            lo <= a <= hi <= chars.len(),
            s == chars@.subrange(lo as int, hi as int),
            forall|i: int| 0 <= i < a - lo ==> is_space(#[trigger] s[i]),
        decreases hi - a,
    {
        a = a + 1;
    }
    proof {
        lemma_trim_start(s, a - lo);
    }
    let ghost u = chars@.subrange(a as int, hi as int);
    assert(trim_start(s) =~= u);
    let mut b = hi;
    while b > a && is_space_char(chars[b - 1])
        invariant
            lo <= a <= b <= hi <= chars.len(),
            u == chars@.subrange(a as int, hi as int),
            forall|i: int| b - a <= i < u.len() ==> is_space(#[trigger] u[i]),
        decreases b - a,
    {
        b = b - 1;
    }
    proof {
        lemma_trim_end(u, b - a);
    }
    assert(trim(s) =~= chars@.subrange(a as int, b as int));
    if a == b {
        return Ok(None);
    }
    match read_number(chars, a, b) {
        Some(x) => Ok(Some(x)),
        None => Err(IdsError::InvalidId),
    }
}

/// Whether `c` is white space in the Unicode sense.
fn is_space_char(c: char) -> (r: bool)
    ensures
        r == is_space(c),
{
    let u = c as u32;
    (0x09 <= u && u <= 0x0d) || u == 0x20 || u == 0x85 || u == 0xa0 || u == 0x1680 || (0x2000
        <= u && u <= 0x200a) || u == 0x2028 || u == 0x2029 || u == 0x202f || u == 0x205f || u
        == 0x3000
}

/// The ids that `s` lists: its comma-separated pieces, each trimmed of white
/// space, blank pieces skipped, each other piece an unsigned 32-bit decimal
/// number (with an optional `+`). One piece that is no such number makes the
/// whole list an error.
pub fn deserialize_ids(s: &str) -> (r: Result<Vec<u32>, IdsError>)
    ensures
        match ids_of(split_commas(s@)) {
            Some(v) => r matches Ok(x) && x@ == v,
            None => r == Err::<Vec<u32>, IdsError>(IdsError::InvalidId),
        },
{
    let chars = chars_of(s);
    let ghost cs = chars@;
    let mut out: Vec<u32> = Vec::new();
    let ghost mut done: Seq<Seq<char>> = Seq::empty();
    let mut start: usize = 0;
    let mut i: usize = 0;
    proof {
        assert(cs.subrange(0, 0) =~= Seq::<char>::empty());
        assert(split_commas(cs.subrange(0, 0)) =~= done.push(cs.subrange(0, 0)));
    }
    while i < chars.len()
        invariant
            start <= i <= chars.len(),
            cs == chars@,
            cs == s@,
            split_commas(cs.subrange(0, i as int)) == done.push(cs.subrange(start as int, i as int)),
            ids_of(done) == Some(out@),
        decreases chars.len() - i,
    {
        let ghost pre = cs.subrange(0, i as int + 1);
        assert(pre.drop_last() =~= cs.subrange(0, i as int));
        assert(pre.last() == chars[i as int]);
        if chars[i] == ',' {
            let piece = read_piece(&chars, start, i);
            let ghost this = cs.subrange(start as int, i as int);
            let ghost next = done.push(this);
            assert(next.drop_last() =~= done);
            match piece {
                Ok(Some(x)) => {
                    out.push(x);
                },
                Ok(None) => {},
                Err(e) => {
                    proof {
                        assert(ids_of(next) is None);
                        lemma_split_prefix(cs, i as int + 1, next);
                        lemma_ids_of_error(split_commas(cs), next);
                    }
                    return Err(e);
                },
            }
            proof {
                done = next;
                assert(cs.subrange(i as int + 1, i as int + 1) =~= Seq::<char>::empty());
            }
            start = i + 1;
        } else {
            proof {
                assert(cs.subrange(start as int, i as int + 1) =~= cs.subrange(
                    start as int,
                    i as int,
                ).push(chars[i as int]));
                assert(done.push(cs.subrange(start as int, i as int)).update(
                    done.len() as int,
                    cs.subrange(start as int, i as int + 1),
                ) =~= done.push(cs.subrange(start as int, i as int + 1)));
            }
        }
        i = i + 1;
    }
    let piece = read_piece(&chars, start, i);
    let ghost all = done.push(cs.subrange(start as int, i as int));
    assert(cs.subrange(0, i as int) =~= cs);
    assert(all.drop_last() =~= done);
    match piece {
        Ok(Some(x)) => {
            out.push(x);
            Ok(out)
        },
        Ok(None) => Ok(out),
        Err(e) => Err(e),
    }
}

/// Once a prefix of the pieces fails, the whole list fails.
proof fn lemma_ids_of_error(pieces: Seq<Seq<char>>, pre: Seq<Seq<char>>)
    requires
        pre.len() <= pieces.len(),
        pieces.subrange(0, pre.len() as int) == pre,
        ids_of(pre) is None,
    ensures
        ids_of(pieces) is None,
    decreases pieces.len() - pre.len(),
{
    if pieces.len() > pre.len() {
        let pre2 = pieces.subrange(0, pre.len() as int + 1);
        assert(pre2.drop_last() =~= pre);
        lemma_ids_of_error(pieces, pre2);
    } else {
        assert(pieces =~= pre);
    }
}

/// The pieces of a prefix that ends with a comma begin the pieces of the
/// whole string.
proof fn lemma_split_prefix(s: Seq<char>, n: int, pieces: Seq<Seq<char>>)
    requires
        0 < n <= s.len(),
        s[n - 1] == ',',
        split_commas(s.subrange(0, n)) == pieces.push(Seq::empty()),
    ensures
        pieces.len() <= split_commas(s).len(),
        split_commas(s).subrange(0, pieces.len() as int) == pieces,
{
    assert(split_commas(s.subrange(0, n)).subrange(0, pieces.len() as int) =~= pieces);
    lemma_split_grows(s, n, pieces);
}

/// Splitting a longer prefix keeps the pieces that a comma closed.
proof fn lemma_split_grows(s: Seq<char>, n: int, pieces: Seq<Seq<char>>)
    requires
        0 < n <= s.len(),
        pieces.len() < split_commas(s.subrange(0, n)).len(),
        split_commas(s.subrange(0, n)).subrange(0, pieces.len() as int) == pieces,
    ensures
        pieces.len() < split_commas(s).len(),
        split_commas(s).subrange(0, pieces.len() as int) == pieces,
    decreases s.len() - n,
{
    if n == s.len() {
        assert(s.subrange(0, n) =~= s);
    } else {
        let t = s.subrange(0, n + 1);
        assert(t.drop_last() =~= s.subrange(0, n));
        let p = split_commas(s.subrange(0, n));
        let q = split_commas(t);
        assert(q.subrange(0, pieces.len() as int) =~= pieces) by {
            if t.last() == ',' {
                assert(q == p.push(Seq::empty()));
            } else {
                assert(q == p.update(p.len() - 1, p.last().push(t.last())));
            }
        }
        lemma_split_grows(s, n + 1, pieces);
    }
}

} // verus!
