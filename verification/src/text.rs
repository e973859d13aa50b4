//! Byte strings: literals, comparison, searching, splitting, trimming,
//! ASCII case folding and decimal numbers.
//!
//! Everything the server reads from or writes to the wire is a sequence of
//! bytes. The functions here are the vocabulary in which the request parser
//! and the router are written; each has a mathematical counterpart over
//! `Seq<u8>` that its contract refers to.
use vstd::prelude::*;
use vstd::slice::slice_subrange;
use vstd::slice::slice_to_vec;
use vstd::string::is_ascii;
use vstd::string::is_ascii_spec_bytes;
use vstd::string::StringSliceAdditionalSpecFns;

verus! {

/// The bytes of an ASCII string literal, one byte for each character.
pub open spec fn lit(s: &str) -> Seq<u8> {
    Seq::new(s@.len(), |i: int| s@[i] as u8)
}

/// The bytes of an ASCII string.
pub fn lit_bytes(s: &str) -> (r: &[u8])
    requires
        is_ascii(s),
    ensures
        r@ == lit(s),
{
    let b = s.as_bytes();
    proof {
        is_ascii_spec_bytes(s);
        assert(b@ =~= lit(s));
    }
    b
}

/// Whether two byte strings hold the same bytes.
pub fn bytes_eq(a: &[u8], b: &[u8]) -> (r: bool)
    ensures
        r == (a@ == b@),
{
    if a.len() != b.len() {
        return false;
    }
    let mut i: usize = 0;
    while i < a.len()
        invariant
            a@.len() == b@.len(),
            i <= a@.len(),
            a@.subrange(0, i as int) == b@.subrange(0, i as int),
        decreases a@.len() - i,
    {
        if a[i] != b[i] {
            return false;
        }
        assert(a@.subrange(0, i + 1) =~= a@.subrange(0, i as int).push(a@[i as int]));
        assert(b@.subrange(0, i + 1) =~= b@.subrange(0, i as int).push(b@[i as int]));
        i = i + 1;
    }
    assert(a@ =~= a@.subrange(0, i as int));
    assert(b@ =~= b@.subrange(0, i as int));
    true
}

/// `sep` occurs in `s` at position `i`.
pub open spec fn matches_at(s: Seq<u8>, sep: Seq<u8>, i: int) -> bool {
    0 <= i && i + sep.len() <= s.len() && s.subrange(i, i + sep.len()) == sep
}

/// `i` is the position of the leftmost occurrence of `sep` in `s`.
pub open spec fn is_first_match(s: Seq<u8>, sep: Seq<u8>, i: int) -> bool {
    matches_at(s, sep, i) && forall|j: int| 0 <= j < i ==> !matches_at(s, sep, j)
}

/// `sep` occurs somewhere in `s`.
pub open spec fn has_match(s: Seq<u8>, sep: Seq<u8>) -> bool {
    exists|i: int| matches_at(s, sep, i)
}

/// The position of the leftmost occurrence of `sep` in `s`, where there is one.
pub open spec fn first_match(s: Seq<u8>, sep: Seq<u8>) -> int {
    choose|i: int| is_first_match(s, sep, i)
}

/// There is at most one leftmost occurrence, and `first_match` names it.
pub proof fn lemma_first_match_unique(s: Seq<u8>, sep: Seq<u8>, i: int)
    requires
        is_first_match(s, sep, i),
    ensures
        has_match(s, sep),
        first_match(s, sep) == i,
{
    let k = first_match(s, sep);
    assert(is_first_match(s, sep, k));
    if k < i {
        assert(!matches_at(s, sep, k));
    }
    if i < k {
        assert(!matches_at(s, sep, i));
    }
}

/// The leftmost occurrence of `sep` in `s`, if there is one.
pub fn find(s: &[u8], sep: &[u8]) -> (r: Option<usize>)
    ensures
        match r {
            Some(i) => is_first_match(s@, sep@, i as int),
            None => !has_match(s@, sep@),
        },
{
    if sep.len() > s.len() {
        return None;
    }
    let last: usize = s.len() - sep.len();
    let mut i: usize = 0;
    loop
        invariant
            sep@.len() <= s@.len() <= usize::MAX,
            last == s@.len() - sep@.len(),
            i <= last,
            forall|j: int| 0 <= j < i ==> !matches_at(s@, sep@, j),
        decreases last - i,
    {
        let window = slice_subrange(s, i, i + sep.len());
        if bytes_eq(window, sep) {
            return Some(i);
        }
        if i == last {
            return None;
        }
        i = i + 1;
    }
}

/// The pieces of `s` between the occurrences of `sep`, found from left to
/// right without overlap. There is always at least one piece; with an empty
/// `sep` the only piece is `s` itself.
pub open spec fn split(s: Seq<u8>, sep: Seq<u8>) -> Seq<Seq<u8>>
    decreases s.len(),
{
    if sep.len() > 0 && has_match(s, sep) {
        let i = first_match(s, sep);
        if 0 <= i && i + sep.len() <= s.len() {
            seq![s.subrange(0, i)] + split(s.subrange(i + sep.len(), s.len() as int), sep)
        } else {
            seq![s]
        }
    } else {
        seq![s]
    }
}

/// The views of a vector of byte strings.
pub open spec fn parts_view(v: Seq<Vec<u8>>) -> Seq<Seq<u8>> {
    Seq::new(v.len(), |i: int| v[i]@)
}

/// Unfolds `split` once at a known leftmost occurrence.
pub proof fn lemma_split_step(s: Seq<u8>, sep: Seq<u8>, i: int)
    requires
        sep.len() > 0,
        is_first_match(s, sep, i),
    ensures
        split(s, sep) == seq![s.subrange(0, i)] + split(
            s.subrange(i + sep.len(), s.len() as int),
            sep,
        ),
{
    lemma_first_match_unique(s, sep, i);
}

/// A separator of one byte occurs exactly where that byte stands.
pub proof fn lemma_byte_match(s: Seq<u8>, byte: u8, i: int)
    ensures
        matches_at(s, seq![byte], i) <==> (0 <= i < s.len() && s[i] == byte),
{
    if 0 <= i < s.len() {
        if s[i] == byte {
            assert(s.subrange(i, i + 1) =~= seq![byte]);
        } else {
            assert(s.subrange(i, i + 1)[0] == s[i]);
        }
    }
}

/// A string without a given byte is its own only piece when split at that
/// byte.
pub proof fn lemma_split_without_byte(s: Seq<u8>, byte: u8)
    requires
        forall|i: int| 0 <= i < s.len() ==> s[i] != byte,
    ensures
        split(s, seq![byte]) == seq![s],
{
    assert forall|i: int| !matches_at(s, seq![byte], i) by {
        lemma_byte_match(s, byte, i);
    }
}

/// Splitting at a byte cuts off the piece before its first occurrence.
pub proof fn lemma_split_at_byte(s: Seq<u8>, byte: u8, i: int)
    requires
        0 <= i < s.len(),
        s[i] == byte,
        forall|j: int| 0 <= j < i ==> s[j] != byte,
    ensures
        split(s, seq![byte]) == seq![s.subrange(0, i)] + split(
            s.subrange(i + 1, s.len() as int),
            seq![byte],
        ),
{
    lemma_byte_match(s, byte, i);
    assert forall|j: int| 0 <= j < i implies !matches_at(s, seq![byte], j) by {
        lemma_byte_match(s, byte, j);
    }
    lemma_split_step(s, seq![byte], i);
}

/// Splits `s` at every occurrence of `sep`.
pub fn split_bytes(s: &[u8], sep: &[u8]) -> (r: Vec<Vec<u8>>)
    ensures
        parts_view(r@) == split(s@, sep@),
{
    let mut out: Vec<Vec<u8>> = Vec::new();
    if sep.len() == 0 {
        out.push(slice_to_vec(s));
        assert(parts_view(out@) =~= split(s@, sep@));
        return out;
    }
    let mut start: usize = 0;
    assert(s@.subrange(0, s@.len() as int) =~= s@);
    assert(parts_view(out@) + split(s@, sep@) =~= split(s@, sep@));
    loop
        invariant
            sep@.len() > 0,
            start <= s@.len(),
            split(s@, sep@) == parts_view(out@) + split(
                s@.subrange(start as int, s@.len() as int),
                sep@,
            ),
        decreases s@.len() - start,
    {
        let rest = slice_subrange(s, start, s.len());
        match find(rest, sep) {
            Some(i) => {
                let piece = slice_to_vec(slice_subrange(rest, 0, i));
                proof {
                    lemma_split_step(rest@, sep@, i as int);
                    assert(rest@.subrange(i + sep@.len(), rest@.len() as int) =~= s@.subrange(
                        start + i + sep@.len(),
                        s@.len() as int,
                    ));
                    assert(parts_view(out@.push(piece)) =~= parts_view(out@) + seq![
                        rest@.subrange(0, i as int),
                    ]);
                }
                out.push(piece);
                start = start + i + sep.len();
            },
            None => {
                let piece = slice_to_vec(rest);
                proof {
                    assert(parts_view(out@.push(piece)) =~= parts_view(out@) + seq![rest@]);
                }
                out.push(piece);
                return out;
            },
        }
    }
}

/// ASCII white space: space, tab, line feed, vertical tab, form feed and
/// carriage return.
pub open spec fn is_space(b: u8) -> bool {
    b == 32 || (9 <= b && b <= 13)
}

/// `s` without its leading white space.
pub open spec fn trim_start(s: Seq<u8>) -> Seq<u8>
    decreases s.len(),
{
    if s.len() > 0 && is_space(s[0]) {
        trim_start(s.drop_first())
    } else {
        s
    }
}

/// `s` without its trailing white space.
pub open spec fn trim_end(s: Seq<u8>) -> Seq<u8>
    decreases s.len(),
{
    if s.len() > 0 && is_space(s.last()) {
        trim_end(s.drop_last())
    } else {
        s
    }
}

/// `s` without white space at either end.
pub open spec fn trim(s: Seq<u8>) -> Seq<u8> {
    trim_end(trim_start(s))
}

fn byte_is_space(b: u8) -> (r: bool)
    ensures
        r == is_space(b),
{
    b == 32 || (9 <= b && b <= 13)
}

/// Removes the white space at both ends of `s`.
pub fn trim_bytes(s: &[u8]) -> (r: &[u8])
    ensures
        r@ == trim(s@),
{
    let mut lo: usize = 0;
    assert(s@.subrange(0, s@.len() as int) =~= s@);
    while lo < s.len() && byte_is_space(s[lo])
        invariant
            lo <= s@.len(),
            trim_start(s@) == trim_start(s@.subrange(lo as int, s@.len() as int)),
        decreases s@.len() - lo,
    {
        proof {
            let cur = s@.subrange(lo as int, s@.len() as int);
            assert(cur.drop_first() =~= s@.subrange(lo + 1, s@.len() as int));
        }
        lo = lo + 1;
    }
    let ghost front = s@.subrange(lo as int, s@.len() as int);
    assert(trim_start(s@) == front);
    let mut hi: usize = s.len();
    assert(trim(s@) == trim_end(s@.subrange(lo as int, hi as int)));
    while hi > lo && byte_is_space(s[hi - 1])
        invariant
            lo <= hi <= s@.len(),
            trim(s@) == trim_end(s@.subrange(lo as int, hi as int)),
        decreases hi - lo,
    {
        proof {
            let cur = s@.subrange(lo as int, hi as int);
            assert(cur.drop_last() =~= s@.subrange(lo as int, hi - 1));
        }
        hi = hi - 1;
    }
    slice_subrange(s, lo, hi)
}

/// The lower-case form of an ASCII letter; any other byte is unchanged.
pub open spec fn lower_byte(b: u8) -> u8 {
    if 65 <= b && b <= 90 {
        (b + 32) as u8
    } else {
        b
    }
}

/// `s` with every ASCII capital letter replaced by its lower-case form.
pub open spec fn lower(s: Seq<u8>) -> Seq<u8> {
    Seq::new(s.len(), |i: int| lower_byte(s[i]))
}

/// Folds the ASCII capital letters of `s` to lower case.
pub fn to_lower(s: &[u8]) -> (r: Vec<u8>)
    ensures
        r@ == lower(s@),
{
    let mut out: Vec<u8> = Vec::new();
    let mut i: usize = 0;
    while i < s.len()
        invariant
            i <= s@.len(),
            out@ == lower(s@.subrange(0, i as int)),
        decreases s@.len() - i,
    {
        let b: u8 = s[i];
        let c: u8 = if 65 <= b && b <= 90 {
            b + 32
        } else {
            b
        };
        out.push(c);
        assert(out@ =~= lower(s@.subrange(0, i + 1)));
        i = i + 1;
    }
    assert(s@.subrange(0, i as int) =~= s@);
    out
}

/// Folding to lower case twice is the same as folding once.
pub proof fn lemma_lower_idempotent(s: Seq<u8>)
    ensures
        lower(lower(s)) == lower(s),
{
    assert(lower(lower(s)) =~= lower(s));
}

/// The decimal digits of `n`, most significant first, without leading zeros.
pub open spec fn decimal(n: nat) -> Seq<u8>
    decreases n,
{
    if n < 10 {
        seq![(48 + n) as u8]
    } else {
        decimal(n / 10).push((48 + n % 10) as u8)
    }
}

/// Writes `n` in decimal.
pub fn decimal_bytes(n: usize) -> (r: Vec<u8>)
    ensures
        r@ == decimal(n as nat),
    decreases n,
{
    if n < 10 {
        let mut out: Vec<u8> = Vec::new();
        out.push(48 + (n as u8));
        assert(out@ =~= decimal(n as nat));
        out
    } else {
        let mut out = decimal_bytes(n / 10);
        out.push(48 + ((n % 10) as u8));
        out
    }
}

/// Every byte of `s` is a decimal digit.
pub open spec fn all_digits(s: Seq<u8>) -> bool {
    forall|i: int| 0 <= i < s.len() ==> 48 <= #[trigger] s[i] && s[i] <= 57
}

/// The number that a string of decimal digits denotes.
pub open spec fn digits_value(s: Seq<u8>) -> nat
    decreases s.len(),
{
    if s.len() == 0 {
        0
    } else {
        (digits_value(s.drop_last()) * 10 + (s.last() - 48)) as nat
    }
}

/// `s` without one leading plus sign.
pub open spec fn unsigned_part(s: Seq<u8>) -> Seq<u8> {
    if s.len() > 0 && s[0] == 43 {
        s.drop_first()
    } else {
        s
    }
}

/// The number that `s` denotes: an optional plus sign followed by one or
/// more decimal digits whose value fits the machine word. Anything else
/// denotes no number.
pub open spec fn parse_number(s: Seq<u8>) -> Option<usize> {
    let d = unsigned_part(s);
    if d.len() > 0 && all_digits(d) && digits_value(d) <= usize::MAX {
        Some(digits_value(d) as usize)
    } else {
        None
    }
}

proof fn lemma_digits_value_prefix(s: Seq<u8>, k: int)
    requires
        all_digits(s),
        0 <= k <= s.len(),
    ensures
        digits_value(s.subrange(0, k)) <= digits_value(s),
    decreases s.len() - k,
{
    if k == s.len() {
        assert(s.subrange(0, k) =~= s);
    } else {
        let next = s.subrange(0, k + 1);
        assert(next.drop_last() =~= s.subrange(0, k));
        assert(next.last() == s[k]);
        lemma_digits_value_prefix(s, k + 1);
    }
}

/// Reads a decimal number.
pub fn parse_number_bytes(s: &[u8]) -> (r: Option<usize>)
    ensures
        r == parse_number(s@),
{
    let d = if s.len() > 0 && s[0] == 43 {
        slice_subrange(s, 1, s.len())
    } else {
        s
    };
    assert(d@ == unsigned_part(s@));
    if d.len() == 0 {
        return None;
    }
    let mut acc: usize = 0;
    let mut i: usize = 0;
    while i < d.len()
        invariant
            d@ == unsigned_part(s@),
            d@.len() > 0,
            i <= d@.len(),
            all_digits(d@.subrange(0, i as int)),
            acc == digits_value(d@.subrange(0, i as int)),
        decreases d@.len() - i,
    {
        let b: u8 = d[i];
        if b < 48 || b > 57 {
            assert(!all_digits(d@)) by {
                assert(!(48 <= d@[i as int] && d@[i as int] <= 57));
            }
            return None;
        }
        let digit: usize = (b - 48) as usize;
        proof {
            let next = d@.subrange(0, i + 1);
            assert(next.drop_last() =~= d@.subrange(0, i as int));
            assert(next.last() == b);
            assert(all_digits(next)) by {
                assert forall|k: int| 0 <= k < next.len() implies 48 <= #[trigger] next[k]
                    && next[k] <= 57 by {
                    if k < i {
                        assert(d@.subrange(0, i as int)[k] == next[k]);
                    }
                }
            }
        }
        if acc > (usize::MAX - digit) / 10 {
            proof {
                let next = d@.subrange(0, i + 1);
                assert(digits_value(next) == acc * 10 + digit);
                assert(acc * 10 + digit > usize::MAX) by (nonlinear_arith)
                    requires
                        acc > (usize::MAX - digit) / 10,
                        digit <= usize::MAX,
                ;
                if all_digits(d@) {
                    lemma_digits_value_prefix(d@, i + 1);
                }
            }
            return None;
        }
        assert(acc * 10 + digit <= usize::MAX) by (nonlinear_arith)
            requires
                acc <= (usize::MAX - digit) / 10,
                digit <= usize::MAX,
        ;
        acc = acc * 10 + digit;
        i = i + 1;
    }
    assert(d@.subrange(0, i as int) =~= d@);
    Some(acc)
}

/// Appends the bytes of `tail` to `out`.
pub fn append(out: &mut Vec<u8>, tail: &[u8])
    ensures
        final(out)@ == old(out)@ + tail@,
{
    let ghost before = out@;
    let mut i: usize = 0;
    while i < tail.len()
        invariant
            i <= tail@.len(),
            out@ == before + tail@.subrange(0, i as int),
        decreases tail@.len() - i,
    {
        out.push(tail[i]);
        assert(out@ =~= before + tail@.subrange(0, i + 1));
        i = i + 1;
    }
    assert(tail@.subrange(0, i as int) =~= tail@);
}

} // verus!
