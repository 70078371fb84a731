//! Character-level text handling: the line, whitespace and separator rules
//! that the record files are read with.
use vstd::prelude::*;

verus! {

// ---------------------------------------------------------------------------
// Specifications
// ---------------------------------------------------------------------------

/// Unicode `White_Space`, the set that `char::is_whitespace` and `str::trim` use.
pub open spec fn is_ws(c: char) -> bool {
    ||| ('\t' <= c && c <= '\r')
    ||| c == ' '
    ||| c == '\u{85}'
    ||| c == '\u{a0}'
    ||| c == '\u{1680}'
    ||| ('\u{2000}' <= c && c <= '\u{200a}')
    ||| c == '\u{2028}'
    ||| c == '\u{2029}'
    ||| c == '\u{202f}'
    ||| c == '\u{205f}'
    ||| c == '\u{3000}'
}

/// `s` without its leading whitespace.
pub open spec fn trim_start(s: Seq<char>) -> Seq<char>
    decreases s.len(),
{
    if s.len() > 0 && is_ws(s[0]) {
        trim_start(s.drop_first())
    } else {
        s
    }
}

/// `s` without its trailing whitespace.
pub open spec fn trim_end(s: Seq<char>) -> Seq<char>
    decreases s.len(),
{
    if s.len() > 0 && is_ws(s.last()) {
        trim_end(s.drop_last())
    } else {
        s
    }
}

/// `s` without leading and trailing whitespace.
pub open spec fn trim(s: Seq<char>) -> Seq<char> {
    trim_end(trim_start(s))
}

/// `p` is a prefix of `s`.
pub open spec fn starts_with(s: Seq<char>, p: Seq<char>) -> bool {
    p.len() <= s.len() && s.subrange(0, p.len() as int) == p
}

/// `s` with every leading repetition of the non-empty pattern `p` removed.
pub open spec fn trim_start_matches(s: Seq<char>, p: Seq<char>) -> Seq<char>
    decreases s.len(),
{
    if p.len() > 0 && starts_with(s, p) {
        trim_start_matches(s.skip(p.len() as int), p)
    } else {
        s
    }
}

/// A line without the carriage return of a `\r\n` ending.
pub open spec fn strip_cr(l: Seq<char>) -> Seq<char> {
    if l.len() > 0 && l.last() == '\r' {
        l.drop_last()
    } else {
        l
    }
}

/// The lines of `s` read on from a line already holding `cur`: lines end at
/// `\n` or `\r\n`, and a final line ending is optional.
pub open spec fn lines_from(s: Seq<char>, cur: Seq<char>) -> Seq<Seq<char>>
    decreases s.len(),
{
    if s.len() == 0 {
        if cur.len() == 0 {
            seq![]
        } else {
            seq![cur]
        }
    } else if s[0] == '\n' {
        seq![strip_cr(cur)] + lines_from(s.drop_first(), seq![])
    } else {
        lines_from(s.drop_first(), cur.push(s[0]))
    }
}

/// The lines of `s`, as `str::lines` gives them.
pub open spec fn lines(s: Seq<char>) -> Seq<Seq<char>> {
    lines_from(s, seq![])
}

/// The pieces of `s` read on from a piece already holding `cur`, split at
/// every occurrence of `sep` (empty pieces kept).
pub open spec fn split_from(s: Seq<char>, sep: char, cur: Seq<char>) -> Seq<Seq<char>>
    decreases s.len(),
{
    if s.len() == 0 {
        seq![cur]
    } else if s[0] == sep {
        seq![cur] + split_from(s.drop_first(), sep, seq![])
    } else {
        split_from(s.drop_first(), sep, cur.push(s[0]))
    }
}

/// `s` split at every `sep`, as `str::split` with a `char` gives it.
pub open spec fn split_char(s: Seq<char>, sep: char) -> Seq<Seq<char>> {
    split_from(s, sep, seq![])
}

/// The words of `s` read on from a word already holding `cur`.
pub open spec fn words_from(s: Seq<char>, cur: Seq<char>) -> Seq<Seq<char>>
    decreases s.len(),
{
    if s.len() == 0 {
        if cur.len() == 0 {
            seq![]
        } else {
            seq![cur]
        }
    } else if is_ws(s[0]) {
        (if cur.len() == 0 {
            seq![]
        } else {
            seq![cur]
        }) + words_from(s.drop_first(), seq![])
    } else {
        words_from(s.drop_first(), cur.push(s[0]))
    }
}

/// The maximal runs of non-whitespace in `s`, as `str::split_whitespace` gives them.
pub open spec fn words(s: Seq<char>) -> Seq<Seq<char>> {
    words_from(s, seq![])
}

/// `w` occurs in `s` at position `i`.
pub open spec fn occurs_at(s: Seq<char>, w: Seq<char>, i: int) -> bool {
    0 <= i && i + w.len() <= s.len() && s.subrange(i, i + w.len()) == w
}

/// `w` occurs somewhere in `s` (the empty word occurs everywhere).
pub open spec fn contains(s: Seq<char>, w: Seq<char>) -> bool {
    exists|i: int| occurs_at(s, w, i)
}

/// The decimal digit for `d < 10`.
pub open spec fn digit(d: nat) -> char {
    if d == 0 { '0' }
    else if d == 1 { '1' }
    else if d == 2 { '2' }
    else if d == 3 { '3' }
    else if d == 4 { '4' }
    else if d == 5 { '5' }
    else if d == 6 { '6' }
    else if d == 7 { '7' }
    else if d == 8 { '8' }
    else { '9' }
}

/// The decimal notation of `n`, without leading zeros.
pub open spec fn decimal(n: nat) -> Seq<char>
    decreases n,
{
    if n < 10 {
        seq![digit(n)]
    } else {
        decimal(n / 10).push(digit(n % 10))
    }
}

/// `s` with every occurrence of the non-empty `from` replaced by `to`,
/// scanning left to right without overlaps (as `str::replace`).
pub open spec fn replace(s: Seq<char>, from: Seq<char>, to: Seq<char>) -> Seq<char>
    decreases s.len(),
{
    if from.len() == 0 || s.len() == 0 {
        s
    } else if starts_with(s, from) {
        to + replace(s.skip(from.len() as int), from, to)
    } else {
        seq![s[0]] + replace(s.drop_first(), from, to)
    }
}

// ---------------------------------------------------------------------------
// Conversions
// ---------------------------------------------------------------------------

/// Appends one character to a string (`String::push`).
/// Trusted: the new string is the old one followed by `c`.
#[verifier::external_body]
pub(crate) fn push_char(s: &mut String, c: char)
    ensures
        final(s)@ == old(s)@.push(c),
{
    s.push(c);
}

/// The characters of `s`, in order.
pub fn to_chars(s: &str) -> (v: Vec<char>)
    ensures
        v@ == s@,
{
    let mut v: Vec<char> = Vec::new();
    for c in it: s.chars()
        invariant
            v@ == it.seq().take(it.index() as int),
            it.seq() == s@,
    {
        v.push(c);
    }
    v
}

/// The string made of the characters of `v`.
pub fn from_chars(v: &[char]) -> (s: String)
    ensures
        s@ == v@,
{
    let mut s = String::new();
    let mut i: usize = 0;
    while i < v.len()
        invariant
            i <= v.len(),
            s@ == v@.take(i as int),
        decreases v.len() - i,
    {
        push_char(&mut s, v[i]);
        i = i + 1;
        assert(v@.take(i as int) =~= v@.take((i - 1) as int).push(v@[i - 1]));
    }
    assert(v@.take(v.len() as int) =~= v@);
    s
}

/// Appends the characters of `src` to `dst`.
pub fn extend(dst: &mut Vec<char>, src: &[char])
    ensures
        final(dst)@ == old(dst)@ + src@,
{
    let mut i: usize = 0;
    while i < src.len()
        invariant
            i <= src.len(),
            dst@ == old(dst)@ + src@.take(i as int),
        decreases src.len() - i,
    {
        dst.push(src[i]);
        i = i + 1;
        assert(src@.take(i as int) =~= src@.take((i - 1) as int).push(src@[i - 1]));
    }
    assert(src@.take(src.len() as int) =~= src@);
}

/// The characters of `v` from `lo` up to `hi`.
pub fn copy_range(v: &[char], lo: usize, hi: usize) -> (r: Vec<char>)
    requires
        lo <= hi <= v.len(),
    ensures
        r@ == v@.subrange(lo as int, hi as int),
{
    let mut r: Vec<char> = Vec::new();
    let mut i: usize = lo;
    while i < hi
        invariant
            lo <= i <= hi <= v.len(),
            r@ == v@.subrange(lo as int, i as int),
        decreases hi - i,
    {
        r.push(v[i]);
        i = i + 1;
        assert(v@.subrange(lo as int, i as int) =~= v@.subrange(lo as int, (i - 1) as int).push(v@[i - 1]));
    }
    r
}

/// Whether two character sequences are equal.
pub fn chars_eq(a: &[char], b: &[char]) -> (r: bool)
    ensures
        r == (a@ == b@),
{
    if a.len() != b.len() {
        return false;
    }
    let mut i: usize = 0;
    while i < a.len()
        invariant
            a.len() == b.len(),
            i <= a.len(),
            forall|j: int| 0 <= j < i ==> a@[j] == b@[j],
        decreases a.len() - i,
    {
        if a[i] != b[i] {
            return false;
        }
        i = i + 1;
    }
    assert(a@ =~= b@);
    true
}

// ---------------------------------------------------------------------------
// Whitespace
// ---------------------------------------------------------------------------

/// Whether `c` is Unicode whitespace.
pub fn is_whitespace(c: char) -> (r: bool)
    ensures
        r == is_ws(c),
{
    ('\t' <= c && c <= '\r') || c == ' ' || c == '\u{85}' || c == '\u{a0}' || c == '\u{1680}'
        || ('\u{2000}' <= c && c <= '\u{200a}') || c == '\u{2028}' || c == '\u{2029}'
        || c == '\u{202f}' || c == '\u{205f}' || c == '\u{3000}'
}

/// The number of leading whitespace characters of `v` from `lo` on.
fn leading_ws(v: &[char], lo: usize) -> (k: usize)
    requires
        lo <= v.len(),
    ensures
        lo <= k <= v.len(),
        trim_start(v@.skip(lo as int)) == v@.skip(k as int),
{
    let mut i: usize = lo;
    while i < v.len() && is_whitespace(v[i])
        invariant
            lo <= i <= v.len(),
            trim_start(v@.skip(lo as int)) == trim_start(v@.skip(i as int)),
        decreases v.len() - i,
    {
        assert(v@.skip(i as int).drop_first() =~= v@.skip(i + 1));
        i = i + 1;
    }
    i
}

/// The end of `v` from `lo` up to `hi` once trailing whitespace is dropped.
fn trailing_end(v: &[char], lo: usize, hi: usize) -> (k: usize)
    requires
        lo <= hi <= v.len(),
    ensures
        lo <= k <= hi,
        trim_end(v@.subrange(lo as int, hi as int)) == v@.subrange(lo as int, k as int),
{
    let mut i: usize = hi;
    while i > lo && is_whitespace(v[i - 1])
        invariant
            lo <= i <= hi <= v.len(),
            trim_end(v@.subrange(lo as int, hi as int)) == trim_end(v@.subrange(lo as int, i as int)),
        decreases i,
    {
        assert(v@.subrange(lo as int, i as int).drop_last() =~= v@.subrange(lo as int, i - 1));
        i = i - 1;
    }
    i
}

/// `v` without leading and trailing whitespace.
pub fn trim_chars(v: &[char]) -> (r: Vec<char>)
    ensures
        r@ == trim(v@),
{
    let a = leading_ws(v, 0);
    assert(v@.skip(0) =~= v@);
    assert(v@.skip(a as int) =~= v@.subrange(a as int, v.len() as int));
    let b = trailing_end(v, a, v.len());
    copy_range(v, a, b)
}

/// `v` without leading whitespace.
pub fn trim_start_chars(v: &[char]) -> (r: Vec<char>)
    ensures
        r@ == trim_start(v@),
{
    let a = leading_ws(v, 0);
    assert(v@.skip(0) =~= v@);
    assert(v@.skip(a as int) =~= v@.subrange(a as int, v.len() as int));
    copy_range(v, a, v.len())
}

/// Whether `p` is a prefix of `v`.
pub fn starts_with_chars(v: &[char], p: &[char]) -> (r: bool)
    ensures
        r == starts_with(v@, p@),
{
    if p.len() > v.len() {
        return false;
    }
    let mut i: usize = 0;
    while i < p.len()
        invariant
            p.len() <= v.len(),
            i <= p.len(),
            forall|j: int| 0 <= j < i ==> v@[j] == p@[j],
        decreases p.len() - i,
    {
        if v[i] != p[i] {
            assert(v@.subrange(0, p.len() as int)[i as int] != p@[i as int]);
            return false;
        }
        i = i + 1;
    }
    assert(v@.subrange(0, p.len() as int) =~= p@);
    true
}

/// Whether `p` occurs in `v` at position `i`.
fn occurs_at_chars(v: &[char], p: &[char], i: usize) -> (r: bool)
    requires
        i <= v.len(),
    ensures
        r == occurs_at(v@, p@, i as int),
{
    if p.len() > v.len() - i {
        return false;
    }
    let mut j: usize = 0;
    while j < p.len()
        invariant
            i + p.len() <= v.len(),
            j <= p.len(),
            forall|k: int| 0 <= k < j ==> v@[i + k] == p@[k],
        decreases p.len() - j,
    {
        if v[i + j] != p[j] {
            assert(v@.subrange(i as int, i + p.len())[j as int] != p@[j as int]);
            return false;
        }
        j = j + 1;
    }
    assert(v@.subrange(i as int, i + p.len()) =~= p@);
    true
}

/// `v` with every leading repetition of the non-empty `p` removed.
pub fn trim_start_matches_chars(v: &[char], p: &[char]) -> (r: Vec<char>)
    requires
        p.len() > 0,
    ensures
        r@ == trim_start_matches(v@, p@),
{
    let mut i: usize = 0;
    assert(v@.skip(0) =~= v@);
    while occurs_at_chars(v, p, i)
        invariant
            i <= v.len(),
            p.len() > 0,
            trim_start_matches(v@, p@) == trim_start_matches(v@.skip(i as int), p@),
        decreases v.len() - i,
    {
        assert(v@.skip(i as int).subrange(0, p.len() as int) =~= v@.subrange(i as int, i + p.len()));
        assert(v@.skip(i as int).skip(p.len() as int) =~= v@.skip(i + p.len()));
        i = i + p.len();
    }
    if p.len() <= v.len() - i {
        assert(v@.skip(i as int).subrange(0, p.len() as int) =~= v@.subrange(i as int, i + p.len()));
    }
    assert(v@.skip(i as int) =~= v@.subrange(i as int, v.len() as int));
    copy_range(v, i, v.len())
}


// ---------------------------------------------------------------------------
// Splitting
// ---------------------------------------------------------------------------

proof fn lemma_push_then_append<A>(a: Seq<A>, x: A, b: Seq<A>)
    ensures
        a.push(x) + b == a + (seq![x] + b),
{
    assert(a.push(x) + b =~= a + (seq![x] + b));
}

/// The lines of `v`, as `str::lines` gives them.
pub fn split_lines(v: &[char]) -> (r: Vec<Vec<char>>)
    ensures
        chars_views(r@) == lines(v@),
{
    let mut out: Vec<Vec<char>> = Vec::new();
    let mut cur: Vec<char> = Vec::new();
    let mut i: usize = 0;
    assert(v@.skip(0) =~= v@);
    assert(chars_views(out@) + lines_from(v@, cur@) =~= lines(v@));
    while i < v.len()
        invariant
            i <= v.len(),
            lines(v@) == chars_views(out@) + lines_from(v@.skip(i as int), cur@),
        decreases v.len() - i,
    {
        let c = v[i];
        assert(v@.skip(i as int).drop_first() =~= v@.skip(i + 1));
        if c == '\n' {
            let ghost old_out = chars_views(out@);
            let ghost old_cur = cur@;
            if cur.len() > 0 && cur[cur.len() - 1] == '\r' {
                cur.pop();
            }
            assert(cur@ == strip_cr(old_cur));
            out.push(cur);
            cur = Vec::new();
            assert(chars_views(out@) =~= old_out.push(strip_cr(old_cur)));
            proof {
                lemma_push_then_append(old_out, strip_cr(old_cur), lines_from(v@.skip(i + 1), seq![]));
            }
        } else {
            cur.push(c);
        }
        i = i + 1;
    }
    let ghost before = chars_views(out@);
    if cur.len() > 0 {
        out.push(cur);
        assert(chars_views(out@) =~= before + lines_from(v@.skip(i as int), cur@));
    } else {
        assert(chars_views(out@) =~= before + lines_from(v@.skip(i as int), cur@));
    }
    out
}

/// `v` split at every `sep`, as `str::split` with a `char` gives it.
pub fn split_on(v: &[char], sep: char) -> (r: Vec<Vec<char>>)
    ensures
        chars_views(r@) == split_char(v@, sep),
{
    let mut out: Vec<Vec<char>> = Vec::new();
    let mut cur: Vec<char> = Vec::new();
    let mut i: usize = 0;
    assert(v@.skip(0) =~= v@);
    assert(chars_views(out@) + split_from(v@, sep, cur@) =~= split_char(v@, sep));
    while i < v.len()
        invariant
            i <= v.len(),
            split_char(v@, sep) == chars_views(out@) + split_from(v@.skip(i as int), sep, cur@),
        decreases v.len() - i,
    {
        let c = v[i];
        assert(v@.skip(i as int).drop_first() =~= v@.skip(i + 1));
        if c == sep {
            let ghost old_out = chars_views(out@);
            let ghost old_cur = cur@;
            out.push(cur);
            cur = Vec::new();
            assert(chars_views(out@) =~= old_out.push(old_cur));
            proof {
                lemma_push_then_append(old_out, old_cur, split_from(v@.skip(i + 1), sep, seq![]));
            }
        } else {
            cur.push(c);
        }
        i = i + 1;
    }
    let ghost before = chars_views(out@);
    out.push(cur);
    assert(chars_views(out@) =~= before + split_from(v@.skip(i as int), sep, cur@));
    out
}

/// The maximal runs of non-whitespace in `v`, as `str::split_whitespace` gives them.
pub fn split_words(v: &[char]) -> (r: Vec<Vec<char>>)
    ensures
        chars_views(r@) == words(v@),
{
    let mut out: Vec<Vec<char>> = Vec::new();
    let mut cur: Vec<char> = Vec::new();
    let mut i: usize = 0;
    assert(v@.skip(0) =~= v@);
    assert(chars_views(out@) + words_from(v@, cur@) =~= words(v@));
    while i < v.len()
        invariant
            i <= v.len(),
            words(v@) == chars_views(out@) + words_from(v@.skip(i as int), cur@),
        decreases v.len() - i,
    {
        let c = v[i];
        assert(v@.skip(i as int).drop_first() =~= v@.skip(i + 1));
        if is_whitespace(c) {
            let ghost old_out = chars_views(out@);
            let ghost old_cur = cur@;
            if cur.len() > 0 {
                out.push(cur);
                assert(chars_views(out@) =~= old_out + seq![old_cur]);
            } else {
                assert(chars_views(out@) =~= old_out + seq![]);
            }
            cur = Vec::new();
            let ghost flushed: Seq<Seq<char>> = if old_cur.len() == 0 { seq![] } else { seq![old_cur] };
            assert(old_out + (flushed + words_from(v@.skip(i + 1), seq![]))
                =~= (old_out + flushed) + words_from(v@.skip(i + 1), seq![]));
        } else {
            cur.push(c);
        }
        i = i + 1;
    }
    let ghost before = chars_views(out@);
    if cur.len() > 0 {
        out.push(cur);
        assert(chars_views(out@) =~= before + words_from(v@.skip(i as int), cur@));
    } else {
        assert(chars_views(out@) =~= before + words_from(v@.skip(i as int), cur@));
    }
    out
}

/// The contents of a sequence of character vectors.
pub open spec fn chars_views(v: Seq<Vec<char>>) -> Seq<Seq<char>> {
    v.map_values(|x: Vec<char>| x@)
}

/// Whether `w` occurs in `v`.
pub fn contains_chars(v: &[char], w: &[char]) -> (r: bool)
    ensures
        r == contains(v@, w@),
{
    if w.len() > v.len() {
        assert forall|i: int| !occurs_at(v@, w@, i) by {}
        return false;
    }
    let last = v.len() - w.len();
    let mut i: usize = 0;
    loop
        invariant
            w.len() <= v.len(),
            last == v.len() - w.len(),
            i <= last,
            forall|j: int| 0 <= j < i ==> !occurs_at(v@, w@, j),
        ensures
            forall|j: int| 0 <= j <= last ==> !occurs_at(v@, w@, j),
        decreases last - i,
    {
        if occurs_at_chars(v, w, i) {
            return true;
        }
        if i == last {
            break;
        }
        i = i + 1;
    }
    assert forall|j: int| !occurs_at(v@, w@, j) by {
        if 0 <= j <= last {
        }
    }
    false
}

/// The decimal notation of `n`.
pub fn decimal_chars(n: usize) -> (r: Vec<char>)
    ensures
        r@ == decimal(n as nat),
    decreases n,
{
    let d = n % 10;
    let c = if d == 0 { '0' } else if d == 1 { '1' } else if d == 2 { '2' } else if d == 3 { '3' }
        else if d == 4 { '4' } else if d == 5 { '5' } else if d == 6 { '6' } else if d == 7 { '7' }
        else if d == 8 { '8' } else { '9' };
    if n < 10 {
        let mut r: Vec<char> = Vec::new();
        r.push(c);
        assert(r@ =~= seq![digit(n as nat)]);
        r
    } else {
        let mut r = decimal_chars(n / 10);
        r.push(c);
        r
    }
}

/// The decimal notation of `n`, as a string (`usize::to_string`).
pub fn decimal_string(n: usize) -> (r: String)
    ensures
        r@ == decimal(n as nat),
{
    let v = decimal_chars(n);
    from_chars(&v)
}

/// `v` with every occurrence of the non-empty `from` replaced by `to`.
pub fn replace_chars(v: &[char], from: &[char], to: &[char]) -> (r: Vec<char>)
    ensures
        r@ == replace(v@, from@, to@),
{
    let mut out: Vec<char> = Vec::new();
    if from.len() == 0 {
        extend(&mut out, v);
        assert(out@ =~= v@);
        return out;
    }
    let mut i: usize = 0;
    assert(v@.skip(0) =~= v@);
    while i < v.len()
        invariant
            i <= v.len(),
            from.len() > 0,
            replace(v@, from@, to@) == out@ + replace(v@.skip(i as int), from@, to@),
        decreases v.len() - i,
    {
        let ghost rest = v@.skip(i as int);
        if occurs_at_chars(v, from, i) {
            assert(rest.subrange(0, from.len() as int) =~= v@.subrange(i as int, i + from.len()));
            assert(rest.skip(from.len() as int) =~= v@.skip(i + from.len()));
            let ghost o = out@;
            extend(&mut out, to);
            assert(o + (to@ + replace(v@.skip(i + from.len()), from@, to@))
                =~= (o + to@) + replace(v@.skip(i + from.len()), from@, to@));
            i = i + from.len();
        } else {
            if from.len() <= v.len() - i {
                assert(rest.subrange(0, from.len() as int) =~= v@.subrange(i as int, i + from.len()));
            }
            assert(rest.drop_first() =~= v@.skip(i + 1));
            let ghost o = out@;
            out.push(v[i]);
            assert(o + (seq![rest[0]] + replace(v@.skip(i + 1), from@, to@))
                =~= o.push(v@[i as int]) + replace(v@.skip(i + 1), from@, to@));
            i = i + 1;
        }
    }
    assert(out@ + replace(v@.skip(i as int), from@, to@) =~= out@);
    out
}

// ---------------------------------------------------------------------------
// Case
// ---------------------------------------------------------------------------

/// The lowercase form of a string as `str::to_lowercase` gives it (the
/// Unicode lowercase mapping, character by character with the final-sigma rule).
pub uninterp spec fn lowercase(s: Seq<char>) -> Seq<char>;

/// The lowercase form of `s` (`str::to_lowercase`).
/// Trusted: the result is `lowercase` of the argument; nothing more is stated
/// of that mapping.
#[verifier::external_body]
pub(crate) fn to_lowercase(s: &str) -> (r: String)
    ensures
        r@ == lowercase(s@),
{
    s.to_lowercase()
}

/// The text of bytes decoded as UTF-8 with each invalid sequence replaced
/// by U+FFFD, as `String::from_utf8_lossy` gives it.
pub uninterp spec fn utf8_lossy(b: Seq<u8>) -> Seq<char>;

/// The text of `b` decoded leniently (`String::from_utf8_lossy`).
/// Trusted: the result is `utf8_lossy` of the bytes; nothing more is stated.
#[verifier::external_body]
pub(crate) fn lossy_string(b: &[u8]) -> (r: String)
    ensures
        r@ == utf8_lossy(b@),
{
    String::from_utf8_lossy(b).into_owned()
}

// ---------------------------------------------------------------------------
// Laws of lines
// ---------------------------------------------------------------------------

/// A line as `str::lines` can give it back: no newline inside, and no
/// carriage return at its end.
pub open spec fn plain_line(l: Seq<char>) -> bool {
    &&& !l.contains('\n')
    &&& !(l.len() > 0 && l.last() == '\r')
}

/// Lines joined into text, each ended by a newline.
pub open spec fn unlines(ls: Seq<Seq<char>>) -> Seq<char>
    decreases ls.len(),
{
    if ls.len() == 0 {
        seq![]
    } else {
        unlines(ls.drop_last()) + ls.last() + seq!['\n']
    }
}

proof fn lemma_unlines_front(ls: Seq<Seq<char>>)
    requires
        ls.len() > 0,
    ensures
        unlines(ls) == ls[0] + seq!['\n'] + unlines(ls.drop_first()),
    decreases ls.len(),
{
    if ls.len() == 1 {
        assert(ls.drop_last() =~= Seq::<Seq<char>>::empty());
        assert(ls.drop_first() =~= Seq::<Seq<char>>::empty());
        assert(unlines(ls) =~= ls[0] + seq!['\n'] + unlines(ls.drop_first()));
    } else {
        lemma_unlines_front(ls.drop_last());
        assert(ls.drop_last().drop_first() =~= ls.drop_first().drop_last());
        assert(ls.drop_first().last() == ls.last());
        assert(unlines(ls) =~= ls[0] + seq!['\n'] + unlines(ls.drop_first()));
    }
}

/// Reading on through a line's text and its newline ends that line.
proof fn lemma_lines_from_line(s: Seq<char>, t: Seq<char>, cur: Seq<char>)
    requires
        !s.contains('\n'),
    ensures
        lines_from(s + seq!['\n'] + t, cur) == seq![strip_cr(cur + s)] + lines_from(t, seq![]),
    decreases s.len(),
{
    if s.len() == 0 {
        assert(s + seq!['\n'] + t =~= seq!['\n'] + t);
        assert((seq!['\n'] + t).drop_first() =~= t);
        assert(cur + s =~= cur);
    } else {
        assert(s[0] != '\n') by {
            if s[0] == '\n' {
                assert(s.contains('\n'));
            }
        }
        assert(!s.drop_first().contains('\n')) by {
            if s.drop_first().contains('\n') {
                let j = choose|j: int| 0 <= j < s.drop_first().len() && s.drop_first()[j] == '\n';
                assert(s[j + 1] == '\n');
            }
        }
        lemma_lines_from_line(s.drop_first(), t, cur.push(s[0]));
        assert((s + seq!['\n'] + t).drop_first() =~= s.drop_first() + seq!['\n'] + t);
        assert(cur.push(s[0]) + s.drop_first() =~= cur + s);
    }
}

/// Lines joined and read again are the same lines.
pub proof fn lemma_lines_unlines(ls: Seq<Seq<char>>)
    requires
        forall|i: int| 0 <= i < ls.len() ==> plain_line(#[trigger] ls[i]),
    ensures
        lines(unlines(ls)) == ls,
    decreases ls.len(),
{
    if ls.len() > 0 {
        lemma_unlines_front(ls);
        let rest = ls.drop_first();
        assert forall|i: int| 0 <= i < rest.len() implies plain_line(#[trigger] rest[i]) by {
            assert(rest[i] == ls[i + 1]);
        }
        lemma_lines_unlines(rest);
        assert(plain_line(ls[0]));
        lemma_lines_from_line(ls[0], unlines(rest), seq![]);
        assert(Seq::<char>::empty() + ls[0] =~= ls[0]);
        assert(seq![ls[0]] + rest =~= ls);
    } else {
        assert(unlines(ls) =~= Seq::<char>::empty());
    }
}

/// No line read from text holds a newline.
pub proof fn lemma_lines_have_no_newline(s: Seq<char>, cur: Seq<char>)
    requires
        !cur.contains('\n'),
    ensures
        forall|i: int| 0 <= i < lines_from(s, cur).len() ==> !(#[trigger] lines_from(s, cur)[i]).contains('\n'),
    decreases s.len(),
{
    let out = lines_from(s, cur);
    if s.len() == 0 {
        if cur.len() > 0 {
            assert(out == seq![cur]);
            assert forall|i: int| 0 <= i < out.len() implies !(#[trigger] out[i]).contains('\n') by {
                assert(out[i] == cur);
            }
        }
    } else if s[0] == '\n' {
        lemma_lines_have_no_newline(s.drop_first(), seq![]);
        assert forall|i: int| 0 <= i < out.len() implies !(#[trigger] out[i]).contains('\n') by {
            if i == 0 {
                let l = strip_cr(cur);
                if l.contains('\n') {
                    let j = choose|j: int| 0 <= j < l.len() && l[j] == '\n';
                    assert(cur[j] == '\n');
                }
            } else {
                assert(out[i] == lines_from(s.drop_first(), seq![])[i - 1]);
            }
        }
    } else {
        assert(!cur.push(s[0]).contains('\n')) by {
            if cur.push(s[0]).contains('\n') {
                let j = choose|j: int| 0 <= j < cur.push(s[0]).len() && cur.push(s[0])[j] == '\n';
                if j < cur.len() {
                    assert(cur[j] == '\n');
                }
            }
        }
        lemma_lines_have_no_newline(s.drop_first(), cur.push(s[0]));
        assert(out == lines_from(s.drop_first(), cur.push(s[0])));
    }
}


// ---------------------------------------------------------------------------
// Laws of joining, splitting and trimming
// ---------------------------------------------------------------------------

/// Lines joined in two runs are the two runs joined.
pub proof fn lemma_unlines_append(a: Seq<Seq<char>>, b: Seq<Seq<char>>)
    ensures
        unlines(a + b) == unlines(a) + unlines(b),
    decreases b.len(),
{
    if b.len() == 0 {
        assert(a + b =~= a);
        assert(unlines(a) + unlines(b) =~= unlines(a));
    } else {
        lemma_unlines_append(a, b.drop_last());
        assert((a + b).drop_last() =~= a + b.drop_last());
        assert((a + b).last() == b.last());
        assert(unlines(a + b) =~= unlines(a) + unlines(b));
    }
}

/// One line joined: the line and its newline.
pub proof fn lemma_unlines_one(l: Seq<char>)
    ensures
        unlines(seq![l]) == l + seq!['\n'],
{
    assert(seq![l].drop_last() =~= Seq::<Seq<char>>::empty());
    assert(unlines(Seq::<Seq<char>>::empty()) =~= Seq::<char>::empty());
    assert(unlines(seq![l]) == unlines(seq![l].drop_last()) + seq![l].last() + seq!['\n']);
    assert(unlines(seq![l]) =~= l + seq!['\n']);
}

/// The pieces of a text split at its newlines, joined again as lines, are
/// the text followed by a newline.
pub proof fn lemma_unlines_split(s: Seq<char>, cur: Seq<char>)
    ensures
        unlines(split_from(s, '\n', cur)) == cur + s + seq!['\n'],
    decreases s.len(),
{
    if s.len() == 0 {
        lemma_unlines_one(cur);
        assert(cur + s =~= cur);
    } else if s[0] == '\n' {
        lemma_unlines_split(s.drop_first(), seq![]);
        lemma_unlines_append(seq![cur], split_from(s.drop_first(), '\n', seq![]));
        lemma_unlines_one(cur);
        assert(s =~= seq!['\n'] + s.drop_first());
        assert(cur + s + seq!['\n'] =~= cur + seq!['\n'] + (Seq::<char>::empty() + s.drop_first() + seq!['\n']));
    } else {
        lemma_unlines_split(s.drop_first(), cur.push(s[0]));
        assert(cur.push(s[0]) + s.drop_first() =~= cur + s);
    }
}

/// A split gives at least one piece, and no piece holds the separator.
pub proof fn lemma_split_pieces(s: Seq<char>, sep: char, cur: Seq<char>)
    requires
        !cur.contains(sep),
    ensures
        split_from(s, sep, cur).len() >= 1,
        forall|i: int| 0 <= i < split_from(s, sep, cur).len() ==> !(#[trigger] split_from(s, sep, cur)[i]).contains(sep),
    decreases s.len(),
{
    let out = split_from(s, sep, cur);
    if s.len() == 0 {
        assert forall|i: int| 0 <= i < out.len() implies !(#[trigger] out[i]).contains(sep) by {
            assert(out[i] == cur);
        }
    } else if s[0] == sep {
        lemma_split_pieces(s.drop_first(), sep, seq![]);
        assert forall|i: int| 0 <= i < out.len() implies !(#[trigger] out[i]).contains(sep) by {
            if i > 0 {
                assert(out[i] == split_from(s.drop_first(), sep, seq![])[i - 1]);
            } else {
                assert(out[i] == cur);
            }
        }
    } else {
        assert(!cur.push(s[0]).contains(sep)) by {
            if cur.push(s[0]).contains(sep) {
                let j = choose|j: int| 0 <= j < cur.push(s[0]).len() && cur.push(s[0])[j] == sep;
                if j < cur.len() {
                    assert(cur[j] == sep);
                }
            }
        }
        lemma_split_pieces(s.drop_first(), sep, cur.push(s[0]));
    }
}

proof fn lemma_trim_start_len(s: Seq<char>)
    ensures
        trim_start(s).len() <= s.len(),
        s.len() > 0 && is_ws(s[0]) ==> trim_start(s).len() < s.len(),
    decreases s.len(),
{
    if s.len() > 0 && is_ws(s[0]) {
        lemma_trim_start_len(s.drop_first());
    }
}

proof fn lemma_trim_end_len(s: Seq<char>)
    ensures
        trim_end(s).len() <= s.len(),
        s.len() > 0 && is_ws(s.last()) ==> trim_end(s).len() < s.len(),
    decreases s.len(),
{
    if s.len() > 0 && is_ws(s.last()) {
        lemma_trim_end_len(s.drop_last());
    }
}

/// A non-empty text that is its own trim starts and ends with non-whitespace.
pub proof fn lemma_trimmed_ends(s: Seq<char>)
    requires
        trim(s) == s,
        s.len() > 0,
    ensures
        !is_ws(s[0]),
        !is_ws(s.last()),
{
    lemma_trim_start_len(s);
    lemma_trim_end_len(trim_start(s));
    if !is_ws(s[0]) {
        assert(trim_start(s) == s);
        lemma_trim_end_len(s);
    }
}

/// A non-empty text that starts and ends with non-whitespace is its own trim.
pub proof fn lemma_trim_fixed(s: Seq<char>)
    requires
        s.len() > 0,
        !is_ws(s[0]),
        !is_ws(s.last()),
    ensures
        trim(s) == s,
{
    assert(trim_start(s) == s);
    assert(trim_end(s) == s);
}

/// Newlines after a non-empty trimmed text are trimmed away.
pub proof fn lemma_trim_newlines(s: Seq<char>)
    requires
        trim(s) == s,
        s.len() > 0,
    ensures
        trim(s + seq!['\n']) == s,
        trim(s + seq!['\n', '\n']) == s,
{
    lemma_trimmed_ends(s);
    let a = s + seq!['\n'];
    let b = s + seq!['\n', '\n'];
    assert(a[0] == s[0]);
    assert(b[0] == s[0]);
    assert(trim_start(a) == a);
    assert(trim_start(b) == b);
    assert(a.drop_last() =~= s);
    assert(b.drop_last() =~= a);
    assert(trim_end(s) == s);
    assert(trim_end(a) == trim_end(s));
    assert(trim_end(b) == trim_end(a));
}

/// A non-empty run of non-whitespace read on from `cur` is one word.
pub proof fn lemma_words_single(s: Seq<char>, cur: Seq<char>)
    requires
        forall|i: int| 0 <= i < s.len() ==> !is_ws(#[trigger] s[i]),
        (cur + s).len() > 0,
    ensures
        words_from(s, cur) == seq![cur + s],
    decreases s.len(),
{
    if s.len() == 0 {
        assert(cur + s =~= cur);
    } else {
        assert(!is_ws(s[0]));
        assert forall|i: int| 0 <= i < s.drop_first().len() implies !is_ws(#[trigger] s.drop_first()[i]) by {
            assert(s.drop_first()[i] == s[i + 1]);
        }
        lemma_words_single(s.drop_first(), cur.push(s[0]));
        assert(cur.push(s[0]) + s.drop_first() =~= cur + s);
    }
}

/// A word, a space and more text: the word, then the words of the rest.
pub proof fn lemma_words_word_space(w: Seq<char>, rest: Seq<char>, cur: Seq<char>)
    requires
        forall|i: int| 0 <= i < w.len() ==> !is_ws(#[trigger] w[i]),
        (cur + w).len() > 0,
    ensures
        words_from(w + seq![' '] + rest, cur) == seq![cur + w] + words_from(rest, seq![]),
    decreases w.len(),
{
    let s = w + seq![' '] + rest;
    if w.len() == 0 {
        assert(s[0] == ' ');
        assert(s.drop_first() =~= rest);
        assert(cur + w =~= cur);
    } else {
        assert(s[0] == w[0]);
        assert(!is_ws(w[0]));
        assert forall|i: int| 0 <= i < w.drop_first().len() implies !is_ws(#[trigger] w.drop_first()[i]) by {
            assert(w.drop_first()[i] == w[i + 1]);
        }
        lemma_words_word_space(w.drop_first(), rest, cur.push(w[0]));
        assert(s.drop_first() =~= w.drop_first() + seq![' '] + rest);
        assert(cur.push(w[0]) + w.drop_first() =~= cur + w);
    }
}

/// Lines joined and read again are the same lines, each without a carriage
/// return at its end, when none of them holds a newline.
pub proof fn lemma_lines_unlines_cr(ls: Seq<Seq<char>>)
    requires
        forall|i: int| 0 <= i < ls.len() ==> !(#[trigger] ls[i]).contains('\n'),
    ensures
        lines(unlines(ls)) == ls.map_values(|l: Seq<char>| strip_cr(l)),
    decreases ls.len(),
{
    if ls.len() > 0 {
        lemma_unlines_front(ls);
        let rest = ls.drop_first();
        assert forall|i: int| 0 <= i < rest.len() implies !(#[trigger] rest[i]).contains('\n') by {
            assert(rest[i] == ls[i + 1]);
        }
        lemma_lines_unlines_cr(rest);
        assert(!ls[0].contains('\n'));
        lemma_lines_from_line(ls[0], unlines(rest), seq![]);
        assert(Seq::<char>::empty() + ls[0] =~= ls[0]);
        assert(seq![strip_cr(ls[0])] + rest.map_values(|l: Seq<char>| strip_cr(l)) =~= ls.map_values(
            |l: Seq<char>| strip_cr(l),
        ));
    } else {
        assert(unlines(ls) =~= Seq::<char>::empty());
        assert(ls.map_values(|l: Seq<char>| strip_cr(l)) =~= Seq::<Seq<char>>::empty());
    }
}

/// Leading whitespace is dropped from a text and what follows it together.
pub proof fn lemma_trim_start_append(x: Seq<char>, y: Seq<char>)
    ensures
        trim_start(x).len() > 0 ==> trim_start(x + y) == trim_start(x) + y,
        trim_start(x).len() == 0 ==> trim_start(x + y) == trim_start(y),
    decreases x.len(),
{
    if x.len() == 0 {
        assert(x + y =~= y);
    } else {
        assert((x + y)[0] == x[0]);
        if is_ws(x[0]) {
            assert((x + y).drop_first() =~= x.drop_first() + y);
            lemma_trim_start_append(x.drop_first(), y);
        } else {
            assert(trim_start(x) == x);
        }
    }
}

/// Whitespace after a text is trimmed away with it.
pub proof fn lemma_trim_append_ws(x: Seq<char>, c: char)
    requires
        is_ws(c),
    ensures
        trim(x + seq![c]) == trim(x),
{
    lemma_trim_start_append(x, seq![c]);
    let ts = trim_start(x);
    if ts.len() > 0 {
        assert((ts + seq![c]).drop_last() =~= ts);
        assert(trim_end(ts + seq![c]) == trim_end(ts));
    } else {
        assert(trim_start(seq![c]).len() == 0) by {
            assert(seq![c][0] == c);
            assert(seq![c].drop_first() =~= Seq::<char>::empty());
            assert(trim_start(Seq::<char>::empty()) =~= Seq::<char>::empty());
            assert(trim_start(seq![c]) == trim_start(seq![c].drop_first()));
        }
        assert(trim_end(trim_start(seq![c])) =~= Seq::<char>::empty());
        assert(trim_end(ts) =~= Seq::<char>::empty());
    }
}

/// A carriage return at the end of a line is trimmed away anyway.
pub proof fn lemma_trim_strip_cr(x: Seq<char>)
    ensures
        trim(strip_cr(x)) == trim(x),
{
    if x.len() > 0 && x.last() == '\r' {
        assert(x.drop_last() + seq!['\r'] =~= x);
        lemma_trim_append_ws(x.drop_last(), '\r');
    }
}

/// A text without the separator is one piece.
pub proof fn lemma_split_single(s: Seq<char>, sep: char, cur: Seq<char>)
    requires
        !s.contains(sep),
    ensures
        split_from(s, sep, cur) == seq![cur + s],
    decreases s.len(),
{
    if s.len() == 0 {
        assert(cur + s =~= cur);
    } else {
        assert(s[0] != sep) by {
            if s[0] == sep {
                assert(s.contains(sep));
            }
        }
        assert(!s.drop_first().contains(sep)) by {
            if s.drop_first().contains(sep) {
                let j = choose|j: int| 0 <= j < s.drop_first().len() && s.drop_first()[j] == sep;
                assert(s[j + 1] == sep);
            }
        }
        lemma_split_single(s.drop_first(), sep, cur.push(s[0]));
        assert(cur.push(s[0]) + s.drop_first() =~= cur + s);
    }
}

/// Dropping trailing whitespace leaves a prefix of the text.
pub proof fn lemma_trim_end_prefix(y: Seq<char>)
    ensures
        trim_end(y).len() <= y.len(),
        trim_end(y) == y.take(trim_end(y).len() as int),
    decreases y.len(),
{
    if y.len() > 0 && is_ws(y.last()) {
        lemma_trim_end_prefix(y.drop_last());
        assert(y.drop_last().take(trim_end(y).len() as int) =~= y.take(trim_end(y).len() as int));
    } else {
        assert(y.take(y.len() as int) =~= y);
    }
}

/// What leading-whitespace trimming leaves is empty or starts with non-whitespace.
pub proof fn lemma_trim_start_first(s: Seq<char>)
    ensures
        trim_start(s).len() == 0 || !is_ws(trim_start(s)[0]),
    decreases s.len(),
{
    if s.len() > 0 && is_ws(s[0]) {
        lemma_trim_start_first(s.drop_first());
    }
}

/// What trailing-whitespace trimming leaves is empty or ends with non-whitespace.
pub proof fn lemma_trim_end_last(s: Seq<char>)
    ensures
        trim_end(s).len() == 0 || !is_ws(trim_end(s).last()),
    decreases s.len(),
{
    if s.len() > 0 && is_ws(s.last()) {
        lemma_trim_end_last(s.drop_last());
    }
}

/// Trimming twice is trimming once.
pub proof fn lemma_trim_idempotent(s: Seq<char>)
    ensures
        trim(trim(s)) == trim(s),
{
    let t = trim_start(s);
    let u = trim_end(t);
    lemma_trim_start_first(s);
    lemma_trim_end_prefix(t);
    lemma_trim_end_last(t);
    if u.len() > 0 {
        assert(u[0] == t[0]);
        lemma_trim_fixed(u);
    } else {
        assert(u =~= Seq::<char>::empty());
        assert(trim(u) =~= Seq::<char>::empty());
    }
}

/// A text whose trimmed form opens with `p` opens with `p` once its leading
/// whitespace is dropped.
pub proof fn lemma_trim_starts(s: Seq<char>, p: Seq<char>)
    requires
        starts_with(trim(s), p),
    ensures
        starts_with(trim_start(s), p),
{
    let t = trim_start(s);
    lemma_trim_end_prefix(t);
    assert(t.subrange(0, p.len() as int) =~= trim_end(t).subrange(0, p.len() as int));
}

// ---------------------------------------------------------------------------
// Laws of replacing
// ---------------------------------------------------------------------------

/// A text holding no occurrence of the pattern is left as it is.
pub proof fn law_replace_without_occurrence(s: Seq<char>, from: Seq<char>, to: Seq<char>)
    requires
        forall|j: int| !occurs_at(s, from, j),
    ensures
        replace(s, from, to) == s,
    decreases s.len(),
{
    if from.len() > 0 && s.len() > 0 {
        assert(!occurs_at(s, from, 0));
        assert(!starts_with(s, from));
        let r = s.drop_first();
        assert forall|j: int| !occurs_at(r, from, j) by {
            if occurs_at(r, from, j) {
                assert(s.subrange(j + 1, j + 1 + from.len()) =~= r.subrange(j, j + from.len()));
                assert(occurs_at(s, from, j + 1));
            }
        }
        law_replace_without_occurrence(r, from, to);
        assert(seq![s[0]] + r =~= s);
    }
}

/// The first occurrence of a non-empty pattern, wherever it stands (on any
/// line), is replaced: the text before it is kept, the replacement follows,
/// then the rest after the occurrence, replaced in turn.
pub proof fn law_replace_first_occurrence(s: Seq<char>, from: Seq<char>, to: Seq<char>, k: int)
    requires
        from.len() > 0,
        occurs_at(s, from, k),
        forall|j: int| 0 <= j < k ==> !occurs_at(s, from, j),
    ensures
        replace(s, from, to) == s.take(k) + to + replace(s.skip(k + from.len()), from, to),
    decreases k,
{
    if k == 0 {
        assert(s.subrange(0, from.len() as int) == from);
        assert(starts_with(s, from));
        assert(s.take(0) + to =~= to);
    } else {
        assert(!occurs_at(s, from, 0));
        assert(!starts_with(s, from));
        let r = s.drop_first();
        assert(r.subrange(k - 1, k - 1 + from.len()) =~= s.subrange(k, k + from.len()));
        assert forall|j: int| 0 <= j < k - 1 implies !occurs_at(r, from, j) by {
            if occurs_at(r, from, j) {
                assert(s.subrange(j + 1, j + 1 + from.len()) =~= r.subrange(j, j + from.len()));
                assert(occurs_at(s, from, j + 1));
            }
        }
        law_replace_first_occurrence(r, from, to, k - 1);
        assert(r.skip(k - 1 + from.len()) =~= s.skip(k + from.len()));
        assert(seq![s[0]] + r.take(k - 1) =~= s.take(k));
        assert(replace(s, from, to) == seq![s[0]] + replace(r, from, to));
        assert(seq![s[0]] + (r.take(k - 1) + to + replace(r.skip(k - 1 + from.len()), from, to)) =~= s.take(k) + to
            + replace(s.skip(k + from.len()), from, to));
    }
}

} // verus!
