//! Character-level text operations with their specifications.
//!
//! Every function here works on the `char` sequence that Verus gives as the
//! view of a `str` or a `String`; the spec functions say what std's string
//! methods of the same purpose return.
use vstd::prelude::*;

verus! {

broadcast use vstd::string::group_string_axioms;

/// std's `String::push`: appends one character at the end of the string.
#[verifier::external_body]
fn push_char(s: &mut String, c: char)
    ensures
        final(s)@ == old(s)@.push(c),
{
    s.push(c);
}

/// The characters of `s`, in order.
pub fn chars_of(s: &str) -> (v: Vec<char>)
    ensures
        v@ == s@,
{
    let mut v: Vec<char> = Vec::new();
    for c in it: s.chars()
        invariant
            it.seq() == s@,
            v@ == it.seq().take(it.index() as int),
    {
        v.push(c);
    }
    v
}

/// The string made of the characters `v[from..to]`.
pub fn string_from_chars(v: &Vec<char>, from: usize, to: usize) -> (s: String)
    requires
        from <= to <= v.len(),
    ensures
        s@ == v@.subrange(from as int, to as int),
{
    let mut s = String::new();
    let mut i = from;
    while i < to
        invariant
            from <= i <= to <= v.len(),
            s@ == v@.subrange(from as int, i as int),
        decreases to - i,
    {
        push_char(&mut s, v[i]);
        i = i + 1;
        assert(s@ =~= v@.subrange(from as int, i as int));
    }
    s
}

/// `pat` occurs in `s` starting at index `i`.
pub open spec fn occurs_at(s: Seq<char>, pat: Seq<char>, i: int) -> bool {
    &&& 0 <= i
    &&& i + pat.len() <= s.len()
    &&& s.subrange(i, i + pat.len()) == pat
}

/// `pat` occurs somewhere in `s` (std's `str::contains` with a string pattern).
pub open spec fn contains(s: Seq<char>, pat: Seq<char>) -> bool {
    exists|i: int| #[trigger] occurs_at(s, pat, i)
}

/// Whether `pat` occurs in `s` at index `i`.
pub fn matches_at(s: &Vec<char>, pat: &Vec<char>, i: usize) -> (r: bool)
    ensures
        r == occurs_at(s@, pat@, i as int),
{
    if i > s.len() || pat.len() > s.len() - i {
        return false;
    }
    let mut k: usize = 0;
    while k < pat.len()
        invariant
            i + pat.len() <= s.len(),
            k <= pat.len(),
            forall|j: int| 0 <= j < k ==> s@[i + j] == pat@[j],
        decreases pat.len() - k,
    {
        if s[i + k] != pat[k] {
            assert(s@.subrange(i as int, i + pat.len())[k as int] != pat@[k as int]);
            return false;
        }
        k = k + 1;
    }
    assert(s@.subrange(i as int, i + pat.len()) =~= pat@);
    true
}

/// Whether `pat` occurs anywhere in `s`.
pub fn contains_chars(s: &Vec<char>, pat: &Vec<char>) -> (r: bool)
    ensures
        r == contains(s@, pat@),
{
    if pat.len() > s.len() {
        assert(forall|i: int| !#[trigger] occurs_at(s@, pat@, i));
        return false;
    }
    let last = s.len() - pat.len();
    let mut i: usize = 0;
    while i < last
        invariant
            pat.len() <= s.len(),
            last == s.len() - pat.len(),
            i <= last,
            forall|j: int| 0 <= j < i ==> !#[trigger] occurs_at(s@, pat@, j),
        decreases last - i,
    {
        if matches_at(s, pat, i) {
            return true;
        }
        i = i + 1;
    }
    if matches_at(s, pat, last) {
        return true;
    }
    assert(forall|j: int| !#[trigger] occurs_at(s@, pat@, j));
    false
}

/// Whether `pat` occurs anywhere in the string `s`.
pub fn contains_str(s: &str, pat: &str) -> (r: bool)
    ensures
        r == contains(s@, pat@),
{
    let sv = chars_of(s);
    let pv = chars_of(pat);
    contains_chars(&sv, &pv)
}

/// std's `str::replace` with a non-empty pattern: every non-overlapping
/// occurrence of `from`, taken from left to right, becomes `to`.
pub open spec fn replace_all(s: Seq<char>, from: Seq<char>, to: Seq<char>) -> Seq<char>
    decreases s.len(),
{
    if from.len() == 0 || s.len() < from.len() {
        s
    } else if s.take(from.len() as int) == from {
        to + replace_all(s.skip(from.len() as int), from, to)
    } else {
        seq![s[0]] + replace_all(s.skip(1), from, to)
    }
}

/// std's `str::replacen(from, to, 1)` with a non-empty pattern: the first
/// occurrence of `from`, if any, becomes `to`.
pub open spec fn replace_first(s: Seq<char>, from: Seq<char>, to: Seq<char>) -> Seq<char>
    decreases s.len(),
{
    if from.len() == 0 || s.len() < from.len() {
        s
    } else if s.take(from.len() as int) == from {
        to + s.skip(from.len() as int)
    } else {
        seq![s[0]] + replace_first(s.skip(1), from, to)
    }
}

/// Replaces every occurrence of `from` in `s` by `to`.
pub fn replace_all_chars(s: &Vec<char>, from: &Vec<char>, to: &Vec<char>) -> (r: Vec<char>)
    requires
        from.len() > 0,
    ensures
        r@ == replace_all(s@, from@, to@),
{
    let mut out: Vec<char> = Vec::new();
    let mut i: usize = 0;
    assert(s@.skip(0) =~= s@);
    while i < s.len()
        invariant
            from.len() > 0,
            i <= s.len(),
            replace_all(s@, from@, to@) == out@ + replace_all(s@.skip(i as int), from@, to@),
        decreases s.len() - i,
    {
        let ghost rest = s@.skip(i as int);
        if matches_at(s, from, i) {
            assert(rest.take(from.len() as int) =~= s@.subrange(i as int, i + from.len()));
            assert(rest.skip(from.len() as int) =~= s@.skip(i + from.len()));
            let mut k: usize = 0;
            let ghost before = out@;
            while k < to.len()
                invariant
                    k <= to.len(),
                    out@ == before + to@.take(k as int),
                decreases to.len() - k,
            {
                out.push(to[k]);
                k = k + 1;
                assert(out@ =~= before + to@.take(k as int));
            }
            assert(to@.take(to.len() as int) =~= to@);
            assert(before + (to@ + replace_all(rest.skip(from.len() as int), from@, to@))
                =~= out@ + replace_all(rest.skip(from.len() as int), from@, to@));
            i = i + from.len();
        } else {
            proof {
                if rest.len() >= from.len() {
                    assert(rest.take(from.len() as int) =~= s@.subrange(i as int, i + from.len()));
                }
            }
            assert(rest.skip(1) =~= s@.skip(i + 1));
            assert(rest[0] == s@[i as int]);
            let ghost before = out@;
            out.push(s[i]);
            assert(before + (seq![s@[i as int]] + replace_all(rest.skip(1), from@, to@))
                =~= out@ + replace_all(rest.skip(1), from@, to@));
            i = i + 1;
        }
    }
    assert(s@.skip(i as int) =~= Seq::<char>::empty());
    assert(out@ + Seq::<char>::empty() =~= out@);
    out
}

/// Appends `v[from..to]` to `out`.
fn extend_from(out: &mut Vec<char>, v: &Vec<char>, from: usize, to: usize)
    requires
        from <= to <= v.len(),
    ensures
        final(out)@ == old(out)@ + v@.subrange(from as int, to as int),
{
    let ghost before = out@;
    let mut k = from;
    while k < to
        invariant
            from <= k <= to <= v.len(),
            out@ == before + v@.subrange(from as int, k as int),
        decreases to - k,
    {
        out.push(v[k]);
        k = k + 1;
        assert(out@ =~= before + v@.subrange(from as int, k as int));
    }
}

/// Replaces the first occurrence of `from` in `s`, if any, by `to`.
pub fn replace_first_chars(s: &Vec<char>, from: &Vec<char>, to: &Vec<char>) -> (r: Vec<char>)
    requires
        from.len() > 0,
    ensures
        r@ == replace_first(s@, from@, to@),
{
    let mut out: Vec<char> = Vec::new();
    let mut i: usize = 0;
    assert(s@.skip(0) =~= s@);
    while i < s.len()
        invariant
            from.len() > 0,
            i <= s.len(),
            replace_first(s@, from@, to@) == out@ + replace_first(s@.skip(i as int), from@, to@),
        decreases s.len() - i,
    {
        let ghost rest = s@.skip(i as int);
        if matches_at(s, from, i) {
            assert(rest.take(from.len() as int) =~= s@.subrange(i as int, i + from.len()));
            assert(rest.skip(from.len() as int) =~= s@.skip(i + from.len()));
            extend_from(&mut out, to, 0, to.len());
            extend_from(&mut out, s, i + from.len(), s.len());
            assert(to@.subrange(0, to.len() as int) =~= to@);
            assert(s@.subrange(i + from.len(), s.len() as int) =~= s@.skip(i + from.len()));
            assert(out@ =~= replace_first(s@, from@, to@));
            return out;
        } else {
            proof {
                if rest.len() >= from.len() {
                    assert(rest.take(from.len() as int) =~= s@.subrange(i as int, i + from.len()));
                }
            }
            assert(rest.skip(1) =~= s@.skip(i + 1));
            assert(rest[0] == s@[i as int]);
            let ghost before = out@;
            out.push(s[i]);
            assert(before + (seq![s@[i as int]] + replace_first(rest.skip(1), from@, to@))
                =~= out@ + replace_first(rest.skip(1), from@, to@));
            i = i + 1;
        }
    }
    assert(s@.skip(i as int) =~= Seq::<char>::empty());
    assert(out@ + Seq::<char>::empty() =~= out@);
    out
}

/// A line without the carriage return that ends it, if it ends with one.
pub open spec fn strip_cr(l: Seq<char>) -> Seq<char> {
    if l.len() > 0 && l.last() == '\r' {
        l.drop_last()
    } else {
        l
    }
}

/// The lines of `s` once the partial line `cur` has been read: as std's
/// `str::lines` and `BufRead::lines` split them, at `\n` or `\r\n`, with no
/// empty line after a final line ending.
pub open spec fn lines_from(s: Seq<char>, cur: Seq<char>) -> Seq<Seq<char>>
    decreases s.len(),
{
    if s.len() == 0 {
        if cur.len() == 0 {
            seq![]
        } else {
            seq![cur]
        }
    } else if s[0] == '\n' {
        seq![strip_cr(cur)] + lines_from(s.skip(1), seq![])
    } else {
        lines_from(s.skip(1), cur.push(s[0]))
    }
}

/// The lines of `s`, as std's `str::lines` gives them.
pub open spec fn lines(s: Seq<char>) -> Seq<Seq<char>> {
    lines_from(s, seq![])
}

/// The views of a vector of strings.
pub open spec fn views(v: Seq<String>) -> Seq<Seq<char>> {
    v.map_values(|x: String| x@)
}

/// The lines of `s`.
pub fn lines_of(s: &str) -> (r: Vec<String>)
    ensures
        views(r@) == lines(s@),
{
    let v = chars_of(s);
    let mut out: Vec<String> = Vec::new();
    let mut cur: Vec<char> = Vec::new();
    let mut i: usize = 0;
    assert(v@.skip(0) =~= v@);
    while i < v.len()
        invariant
            i <= v.len(),
            v@ == s@,
            lines(s@) == views(out@) + lines_from(v@.skip(i as int), cur@),
        decreases v.len() - i,
    {
        let ghost rest = v@.skip(i as int);
        assert(rest.skip(1) =~= v@.skip(i + 1));
        assert(rest[0] == v@[i as int]);
        if v[i] == '\n' {
            let ghost before = views(out@);
            let mut end = cur.len();
            if end > 0 && cur[end - 1] == '\r' {
                end = end - 1;
                assert(cur@.subrange(0, end as int) =~= strip_cr(cur@));
            } else {
                assert(cur@.subrange(0, end as int) =~= strip_cr(cur@));
            }
            let line = string_from_chars(&cur, 0, end);
            out.push(line);
            assert(views(out@) =~= before + seq![strip_cr(cur@)]);
            cur = Vec::new();
            assert(cur@ =~= Seq::<char>::empty());
        } else {
            cur.push(v[i]);
        }
        i = i + 1;
    }
    assert(v@.skip(i as int) =~= Seq::<char>::empty());
    if cur.len() > 0 {
        let ghost before = views(out@);
        let line = string_from_chars(&cur, 0, cur.len());
        assert(cur@.subrange(0, cur.len() as int) =~= cur@);
        out.push(line);
        assert(views(out@) =~= before + seq![cur@]);
    } else {
        assert(views(out@) + Seq::<Seq<char>>::empty() =~= views(out@));
    }
    out
}

/// The fields of `s` once the partial field `cur` has been read, split at
/// every `sep` as std's `str::split` with a `char` pattern does.
pub open spec fn split_from(s: Seq<char>, sep: char, cur: Seq<char>) -> Seq<Seq<char>>
    decreases s.len(),
{
    if s.len() == 0 {
        seq![cur]
    } else if s[0] == sep {
        seq![cur] + split_from(s.skip(1), sep, seq![])
    } else {
        split_from(s.skip(1), sep, cur.push(s[0]))
    }
}

/// The fields of `s` separated by `sep`, as std's `str::split(sep)` gives them.
pub open spec fn split(s: Seq<char>, sep: char) -> Seq<Seq<char>> {
    split_from(s, sep, seq![])
}

/// Splitting always gives one field at least.
pub proof fn lemma_split_from_nonempty(s: Seq<char>, sep: char, cur: Seq<char>)
    ensures
        split_from(s, sep, cur).len() > 0,
    decreases s.len(),
{
    if s.len() > 0 {
        if s[0] == sep {
            lemma_split_from_nonempty(s.skip(1), sep, seq![]);
        } else {
            lemma_split_from_nonempty(s.skip(1), sep, cur.push(s[0]));
        }
    }
}

/// The fields of `s` separated by `sep`.
pub fn split_chars(s: &Vec<char>, sep: char) -> (r: Vec<Vec<char>>)
    ensures
        r@.map_values(|f: Vec<char>| f@) == split(s@, sep),
        r.len() > 0,
{
    proof {
        lemma_split_from_nonempty(s@, sep, seq![]);
    }
    let mut out: Vec<Vec<char>> = Vec::new();
    let mut cur: Vec<char> = Vec::new();
    let mut i: usize = 0;
    assert(s@.skip(0) =~= s@);
    while i < s.len()
        invariant
            i <= s.len(),
            split(s@, sep) == out@.map_values(|f: Vec<char>| f@) + split_from(s@.skip(i as int), sep, cur@),
        decreases s.len() - i,
    {
        let ghost rest = s@.skip(i as int);
        assert(rest.skip(1) =~= s@.skip(i + 1));
        assert(rest[0] == s@[i as int]);
        if s[i] == sep {
            let ghost before = out@.map_values(|f: Vec<char>| f@);
            let ghost field = cur@;
            out.push(cur);
            assert(out@.map_values(|f: Vec<char>| f@) =~= before + seq![field]);
            cur = Vec::new();
            assert(cur@ =~= Seq::<char>::empty());
        } else {
            cur.push(s[i]);
        }
        i = i + 1;
    }
    assert(s@.skip(i as int) =~= Seq::<char>::empty());
    let ghost before = out@.map_values(|f: Vec<char>| f@);
    let ghost field = cur@;
    out.push(cur);
    assert(out@.map_values(|f: Vec<char>| f@) =~= before + seq![field]);
    out
}

/// The parts joined with `sep` between each two (std's `join` on a slice of strings).
pub open spec fn join(parts: Seq<Seq<char>>, sep: Seq<char>) -> Seq<char>
    decreases parts.len(),
{
    if parts.len() == 0 {
        seq![]
    } else if parts.len() == 1 {
        parts[0]
    } else {
        join(parts.drop_last(), sep) + sep + parts.last()
    }
}

/// The strings of `parts` joined with `sep` between each two.
pub fn join_strings(parts: &Vec<String>, sep: &str) -> (r: String)
    ensures
        r@ == join(views(parts@), sep@),
{
    let mut r = String::new();
    let mut i: usize = 0;
    while i < parts.len()
        invariant
            i <= parts.len(),
            r@ == join(views(parts@).take(i as int), sep@),
        decreases parts.len() - i,
    {
        assert(views(parts@).take(i + 1).drop_last() =~= views(parts@).take(i as int));
        assert(views(parts@).take(i + 1).last() == parts@[i as int]@);
        if i > 0 {
            r.append(sep);
        } else {
            assert(r@ =~= Seq::<char>::empty());
        }
        r.append(parts[i].as_str());
        i = i + 1;
    }
    assert(views(parts@).take(parts.len() as int) =~= views(parts@));
    r
}

/// The characters with the Unicode `White_Space` property, the ones that
/// std's `char::is_whitespace` accepts.
pub open spec fn is_whitespace(c: char) -> bool {
    let u = c as u32;
    ||| 0x9 <= u <= 0xd
    ||| u == 0x20
    ||| u == 0x85
    ||| u == 0xa0
    ||| u == 0x1680
    ||| 0x2000 <= u <= 0x200a
    ||| u == 0x2028
    ||| u == 0x2029
    ||| u == 0x202f
    ||| u == 0x205f
    ||| u == 0x3000
}

/// Whether `c` is white space.
pub fn char_is_whitespace(c: char) -> (r: bool)
    ensures
        r == is_whitespace(c),
{
    let u = c as u32;
    (0x9 <= u && u <= 0xd) || u == 0x20 || u == 0x85 || u == 0xa0 || u == 0x1680 || (0x2000 <= u
        && u <= 0x200a) || u == 0x2028 || u == 0x2029 || u == 0x202f || u == 0x205f || u == 0x3000
}

/// `s` without its leading white space.
pub open spec fn trim_start(s: Seq<char>) -> Seq<char>
    decreases s.len(),
{
    if s.len() > 0 && is_whitespace(s[0]) {
        trim_start(s.skip(1))
    } else {
        s
    }
}

/// `s` without its trailing white space.
pub open spec fn trim_end(s: Seq<char>) -> Seq<char>
    decreases s.len(),
{
    if s.len() > 0 && is_whitespace(s.last()) {
        trim_end(s.drop_last())
    } else {
        s
    }
}

/// `s` without leading or trailing white space (std's `str::trim`).
pub open spec fn trim(s: Seq<char>) -> Seq<char> {
    trim_end(trim_start(s))
}

/// The characters `v[from..to]` without leading or trailing white space.
pub fn trim_chars(v: &Vec<char>, from: usize, to: usize) -> (r: String)
    requires
        from <= to <= v.len(),
    ensures
        r@ == trim(v@.subrange(from as int, to as int)),
{
    let ghost s = v@.subrange(from as int, to as int);
    let mut lo = from;
    assert(v@.subrange(lo as int, to as int) =~= s);
    while lo < to && char_is_whitespace(v[lo])
        invariant
            from <= lo <= to <= v.len(),
            s == v@.subrange(from as int, to as int),
            trim_start(s) == trim_start(v@.subrange(lo as int, to as int)),
        decreases to - lo,
    {
        assert(v@.subrange(lo as int, to as int).skip(1) =~= v@.subrange(lo + 1, to as int));
        lo = lo + 1;
    }
    let mut hi = to;
    assert(trim_start(s) == v@.subrange(lo as int, hi as int));
    while hi > lo && char_is_whitespace(v[hi - 1])
        invariant
            from <= lo <= hi <= to <= v.len(),
            trim(s) == trim_end(v@.subrange(lo as int, hi as int)),
        decreases hi - lo,
    {
        assert(v@.subrange(lo as int, hi as int).drop_last() =~= v@.subrange(lo as int, hi - 1));
        hi = hi - 1;
    }
    string_from_chars(v, lo, hi)
}

/// Whether `c` is an ASCII decimal digit.
pub open spec fn is_digit(c: char) -> bool {
    '0' <= c <= '9'
}

/// The number that the decimal digits `s` write.
pub open spec fn digits_value(s: Seq<char>) -> nat
    decreases s.len(),
{
    if s.len() == 0 {
        0
    } else {
        digits_value(s.drop_last()) * 10 + (s.last() as nat - '0' as nat) as nat
    }
}

/// The digits of an unsigned number as std's `FromStr` for unsigned
/// integers reads them: after one optional `+`.
pub open spec fn unsigned_digits(s: Seq<char>) -> Seq<char> {
    if s.len() > 0 && s[0] == '+' {
        s.skip(1)
    } else {
        s
    }
}

/// `s` is a number that `s.parse::<usize>()` accepts.
pub open spec fn parses_as_usize(s: Seq<char>) -> bool {
    let d = unsigned_digits(s);
    &&& d.len() > 0
    &&& forall|i: int| 0 <= i < d.len() ==> is_digit(#[trigger] d[i])
    &&& digits_value(d) <= usize::MAX
}

/// The number that `s` writes, where `parses_as_usize(s)`.
pub open spec fn usize_value(s: Seq<char>) -> nat {
    digits_value(unsigned_digits(s))
}

/// A longer run of digits is worth at least as much as its prefix.
proof fn lemma_digits_value_prefix(d: Seq<char>, k: int)
    requires
        0 <= k <= d.len(),
        forall|i: int| 0 <= i < d.len() ==> is_digit(#[trigger] d[i]),
    ensures
        digits_value(d.take(k)) <= digits_value(d),
    decreases d.len() - k,
{
    if k < d.len() {
        lemma_digits_value_prefix(d, k + 1);
        assert(d.take(k + 1).drop_last() =~= d.take(k));
        assert(is_digit(d[k]));
        let p = digits_value(d.take(k));
        assert(p <= p * 10) by (nonlinear_arith);
    } else {
        assert(d.take(k) =~= d);
    }
}

/// `s.parse::<usize>()`: the number where `s` writes one that fits a `usize`.
pub fn parse_usize(s: &Vec<char>) -> (r: Option<usize>)
    ensures
        r is Some <==> parses_as_usize(s@),
        r matches Some(n) ==> n == usize_value(s@),
{
    let start: usize = if s.len() > 0 && s[0] == '+' {
        1
    } else {
        0
    };
    let ghost d = unsigned_digits(s@);
    assert(d =~= s@.subrange(start as int, s.len() as int));
    if start == s.len() {
        return None;
    }
    let mut v: usize = 0;
    let mut i = start;
    assert(d.take(0) =~= Seq::<char>::empty());
    while i < s.len()
        invariant
            start <= i <= s.len(),
            d == s@.subrange(start as int, s.len() as int),
            d == unsigned_digits(s@),
            forall|j: int| 0 <= j < i - start ==> is_digit(#[trigger] d[j]),
            v == digits_value(d.take(i - start)),
        decreases s.len() - i,
    {
        let c = s[i];
        assert(d[i - start] == c);
        if !('0' <= c && c <= '9') {
            assert(!is_digit(d[i - start]));
            return None;
        }
        assert(d.take(i - start + 1).drop_last() =~= d.take(i - start));
        assert(d.take(i - start + 1).last() == c);
        let digit = (c as u32 - '0' as u32) as usize;
        match v.checked_mul(10) {
            Some(t) => match t.checked_add(digit) {
                Some(n) => {
                    v = n;
                },
                None => {
                    proof {
                        lemma_prefix_too_large(s@, i - start + 1);
                    }
                    return None;
                },
            },
            None => {
                proof {
                    lemma_prefix_too_large(s@, i - start + 1);
                }
                return None;
            },
        }
        i = i + 1;
    }
    assert(d.take(i - start) =~= d);
    Some(v)
}

/// Once a prefix of the digits is too large for a `usize`, so is the whole
/// number, or one of its characters is not a digit.
proof fn lemma_prefix_too_large(s: Seq<char>, k: int)
    requires
        0 <= k <= unsigned_digits(s).len(),
        digits_value(unsigned_digits(s).take(k)) > usize::MAX,
    ensures
        !parses_as_usize(s),
{
    let d = unsigned_digits(s);
    if forall|j: int| 0 <= j < d.len() ==> is_digit(#[trigger] d[j]) {
        lemma_digits_value_prefix(d, k);
    }
}

/// Whether the characters of `a` and `b` are the same.
pub fn chars_eq(a: &Vec<char>, b: &Vec<char>) -> (r: bool)
    ensures
        r == (a@ == b@),
{
    if a.len() != b.len() {
        return false;
    }
    let mut i: usize = 0;
    while i < a.len()
        invariant
            a.len() == b.len(),
            i <= a.len(),
            forall|j: int| 0 <= j < i ==> a@[j] == b@[j],
        decreases a.len() - i,
    {
        if a[i] != b[i] {
            return false;
        }
        i = i + 1;
    }
    assert(a@ =~= b@);
    true
}

} // verus!
