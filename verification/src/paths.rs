//! File paths held as text: their components, file names and extensions, and
//! the order listings are sorted in.
use vstd::prelude::*;

use crate::text::{chars_eq, chars_views, extend, split_char, split_on, to_chars};

verus! {

/// A piece of a path that names something: not empty and not `.`.
pub open spec fn is_component(c: Seq<char>) -> bool {
    c.len() > 0 && c != seq!['.']
}

/// The pieces of `ps` that name something, in order.
pub open spec fn keep_components(ps: Seq<Seq<char>>) -> Seq<Seq<char>>
    decreases ps.len(),
{
    if ps.len() == 0 {
        seq![]
    } else {
        keep_components(ps.drop_last()) + if is_component(ps.last()) {
            seq![ps.last()]
        } else {
            seq![]
        }
    }
}

/// The named components of a path: its `/`-separated pieces without empty
/// pieces and `.`.
pub open spec fn path_components(p: Seq<char>) -> Seq<Seq<char>> {
    keep_components(split_char(p, '/'))
}

/// The file name of a path: its last component, unless that is `..` or there is none.
pub open spec fn file_name(p: Seq<char>) -> Option<Seq<char>> {
    let cs = path_components(p);
    if cs.len() == 0 || cs.last() == seq!['.', '.'] {
        None
    } else {
        Some(cs.last())
    }
}

/// The position of the last `.` in `n`.
pub open spec fn last_dot(n: Seq<char>) -> Option<int>
    decreases n.len(),
{
    if n.len() == 0 {
        None
    } else if n.last() == '.' {
        Some(n.len() - 1)
    } else {
        last_dot(n.drop_last())
    }
}

/// The stem of a file name: the part before its last `.`, or the whole name
/// when that dot is its first character or it has none.
pub open spec fn stem_of(n: Seq<char>) -> Seq<char> {
    if n == seq!['.', '.'] {
        n
    } else {
        match last_dot(n) {
            Some(i) => if i > 0 {
                n.take(i)
            } else {
                n
            },
            None => n,
        }
    }
}

/// The extension of a file name: the part after its last `.`, when that dot
/// is not its first character.
pub open spec fn extension_of(n: Seq<char>) -> Option<Seq<char>> {
    if n == seq!['.', '.'] {
        None
    } else {
        match last_dot(n) {
            Some(i) => if i > 0 {
                Some(n.skip(i + 1))
            } else {
                None
            },
            None => None,
        }
    }
}

/// The stem of a path's file name.
pub open spec fn file_stem(p: Seq<char>) -> Option<Seq<char>> {
    match file_name(p) {
        Some(n) => Some(stem_of(n)),
        None => None,
    }
}

/// The extension of a path's file name.
pub open spec fn extension(p: Seq<char>) -> Option<Seq<char>> {
    match file_name(p) {
        Some(n) => extension_of(n),
        None => None,
    }
}

/// `a` comes before `b` in character order, a proper prefix first.
pub open spec fn chars_less(a: Seq<char>, b: Seq<char>) -> bool
    decreases a.len(),
{
    if a.len() == 0 {
        b.len() > 0
    } else if b.len() == 0 {
        false
    } else if a[0] != b[0] {
        a[0] < b[0]
    } else {
        chars_less(a.drop_first(), b.drop_first())
    }
}

/// `a` comes before `b` component by component, a proper prefix first.
pub open spec fn components_less(a: Seq<Seq<char>>, b: Seq<Seq<char>>) -> bool
    decreases a.len(),
{
    if a.len() == 0 {
        b.len() > 0
    } else if b.len() == 0 {
        false
    } else if a[0] != b[0] {
        chars_less(a[0], b[0])
    } else {
        components_less(a.drop_first(), b.drop_first())
    }
}

/// The order of paths in a listing: by their components.
pub open spec fn path_less(a: Seq<char>, b: Seq<char>) -> bool {
    components_less(path_components(a), path_components(b))
}

/// `name` appended to `base` as `PathBuf::push` does it: an absolute `name`
/// (one that starts with `/`) replaces `base`; otherwise one separator goes
/// between them, unless `base` is empty or already ends with one.
pub open spec fn join(base: Seq<char>, name: Seq<char>) -> Seq<char> {
    if name.len() > 0 && name[0] == '/' {
        name
    } else if base.len() == 0 || base.last() == '/' {
        base + name
    } else {
        base + seq!['/'] + name
    }
}

// ---------------------------------------------------------------------------

/// The named components of the path `p`.
pub fn components(p: &str) -> (r: Vec<Vec<char>>)
    ensures
        chars_views(r@) == path_components(p@),
{
    let cs = to_chars(p);
    let pieces = split_on(&cs, '/');
    let ghost ps = chars_views(pieces@);
    let mut out: Vec<Vec<char>> = Vec::new();
    let mut i: usize = 0;
    assert(ps.take(0) =~= Seq::<Seq<char>>::empty());
    assert(chars_views(out@) =~= Seq::<Seq<char>>::empty());
    let dot = to_chars(".");
    proof {
        reveal_strlit(".");
    }
    while i < pieces.len()
        invariant
            ps == chars_views(pieces@),
            ps == split_char(p@, '/'),
            dot@ == seq!['.'],
            i <= pieces.len(),
            chars_views(out@) == keep_components(ps.take(i as int)),
        decreases pieces.len() - i,
    {
        assert(ps[i as int] == pieces@[i as int]@);
        assert(ps.take(i + 1).drop_last() =~= ps.take(i as int));
        assert(ps.take(i + 1).last() == ps[i as int]);
        let ghost before = chars_views(out@);
        if pieces[i].len() > 0 && !chars_eq(&pieces[i], &dot) {
            let mut c: Vec<char> = Vec::new();
            extend(&mut c, &pieces[i]);
            assert(c@ =~= pieces@[i as int]@);
            out.push(c);
            assert(chars_views(out@) =~= before + seq![ps[i as int]]);
        } else {
            assert(before + Seq::<Seq<char>>::empty() =~= before);
        }
        i = i + 1;
    }
    assert(ps.take(pieces.len() as int) =~= ps);
    out
}

/// The file name of the path `p`.
pub fn path_file_name(p: &str) -> (r: Option<Vec<char>>)
    ensures
        match r {
            Some(v) => file_name(p@) == Some(v@),
            None => file_name(p@) is None,
        },
{
    let mut cs = components(p);
    if cs.len() == 0 {
        return None;
    }
    let n = cs.len();
    assert(chars_views(cs@)[n - 1] == cs@[n - 1]@);
    let ghost cv = chars_views(cs@);
    let last = cs.pop().unwrap();
    let dots = to_chars("..");
    proof {
        reveal_strlit("..");
    }
    assert(dots@ =~= seq!['.', '.']);
    assert(cv.last() == last@);
    if chars_eq(&last, &dots) {
        None
    } else {
        Some(last)
    }
}

/// The position of the last `.` in `n`.
fn find_last_dot(n: &[char]) -> (r: Option<usize>)
    ensures
        match r {
            Some(i) => last_dot(n@) == Some(i as int) && i < n.len(),
            None => last_dot(n@) is None,
        },
{
    let mut k: usize = n.len();
    assert(n@.take(k as int) =~= n@);
    while k > 0
        invariant
            k <= n.len(),
            last_dot(n@) == last_dot(n@.take(k as int)),
        decreases k,
    {
        assert(n@.take(k as int).last() == n@[k - 1]);
        if n[k - 1] == '.' {
            return Some(k - 1);
        }
        assert(n@.take(k as int).drop_last() =~= n@.take(k - 1));
        k = k - 1;
    }
    None
}

/// The stem of the file name of the path `p`, empty when it has no file name.
pub fn path_stem(p: &str) -> (r: Vec<char>)
    ensures
        r@ == match file_stem(p@) {
            Some(s) => s,
            None => seq![],
        },
{
    match path_file_name(p) {
        None => Vec::new(),
        Some(n) => {
            let dots = to_chars("..");
            proof {
                reveal_strlit("..");
            }
            assert(dots@ =~= seq!['.', '.']);
            if chars_eq(&n, &dots) {
                return n;
            }
            match find_last_dot(&n) {
                Some(i) => {
                    if i > 0 {
                        let mut r: Vec<char> = Vec::new();
                        let mut j: usize = 0;
                        while j < i
                            invariant
                                j <= i < n.len(),
                                r@ == n@.take(j as int),
                            decreases i - j,
                        {
                            r.push(n[j]);
                            j = j + 1;
                            assert(n@.take(j as int) =~= n@.take(j - 1).push(n@[j - 1]));
                        }
                        r
                    } else {
                        n
                    }
                },
                None => n,
            }
        },
    }
}

/// Whether the path `p` names a markdown file: its extension is `md`.
pub fn is_md_path(p: &str) -> (r: bool)
    ensures
        r == (extension(p@) == Some(seq!['m', 'd'])),
{
    match path_file_name(p) {
        None => false,
        Some(n) => {
            let dots = to_chars("..");
            proof {
                reveal_strlit("..");
            }
            assert(dots@ =~= seq!['.', '.']);
            if chars_eq(&n, &dots) {
                return false;
            }
            match find_last_dot(&n) {
                Some(i) => {
                    if i > 0 {
                        let ok = n.len() - i == 3 && n[i + 1] == 'm' && n[i + 2] == 'd';
                        assert(ok ==> n@.skip(i + 1) =~= seq!['m', 'd']);
                        assert(n@.skip(i + 1) == seq!['m', 'd'] ==> ok) by {
                            if n@.skip(i + 1) == seq!['m', 'd'] {
                                assert(n@.skip(i + 1).len() == 2);
                                assert(n@.skip(i + 1)[0] == n@[i + 1]);
                                assert(n@.skip(i + 1)[1] == n@[i + 2]);
                            }
                        }
                        ok
                    } else {
                        false
                    }
                },
                None => false,
            }
        },
    }
}

/// Whether `a` comes before `b` in character order.
pub fn chars_less_exec(a: &[char], b: &[char]) -> (r: bool)
    ensures
        r == chars_less(a@, b@),
{
    let mut i: usize = 0;
    assert(a@.skip(0) =~= a@);
    assert(b@.skip(0) =~= b@);
    loop
        invariant
            i <= a.len(),
            i <= b.len(),
            chars_less(a@, b@) == chars_less(a@.skip(i as int), b@.skip(i as int)),
        decreases a.len() - i,
    {
        if i == a.len() {
            return i < b.len();
        }
        if i == b.len() {
            return false;
        }
        if a[i] != b[i] {
            return a[i] < b[i];
        }
        assert(a@.skip(i as int).drop_first() =~= a@.skip(i + 1));
        assert(b@.skip(i as int).drop_first() =~= b@.skip(i + 1));
        i = i + 1;
    }
}

/// Whether the components `a` come before the components `b`.
pub fn components_less_exec(a: &Vec<Vec<char>>, b: &Vec<Vec<char>>) -> (r: bool)
    ensures
        r == components_less(chars_views(a@), chars_views(b@)),
{
    let ghost av = chars_views(a@);
    let ghost bv = chars_views(b@);
    let mut i: usize = 0;
    assert(av.skip(0) =~= av);
    assert(bv.skip(0) =~= bv);
    loop
        invariant
            av == chars_views(a@),
            bv == chars_views(b@),
            i <= a.len(),
            i <= b.len(),
            components_less(av, bv) == components_less(av.skip(i as int), bv.skip(i as int)),
        decreases a.len() - i,
    {
        if i == a.len() {
            return i < b.len();
        }
        if i == b.len() {
            return false;
        }
        assert(av[i as int] == a@[i as int]@);
        assert(bv[i as int] == b@[i as int]@);
        if !chars_eq(&a[i], &b[i]) {
            return chars_less_exec(&a[i], &b[i]);
        }
        assert(av.skip(i as int).drop_first() =~= av.skip(i + 1));
        assert(bv.skip(i as int).drop_first() =~= bv.skip(i + 1));
        i = i + 1;
    }
}

/// `name` appended to the directory `base`.
pub fn join_path(base: &str, name: &str) -> (r: String)
    ensures
        r@ == join(base@, name@),
{
    let b = to_chars(base);
    let n = to_chars(name);
    if n.len() > 0 && n[0] == '/' {
        return crate::text::from_chars(&n);
    }
    let mut out: Vec<char> = Vec::new();
    extend(&mut out, &b);
    if b.len() > 0 && b[b.len() - 1] != '/' {
        out.push('/');
    }
    extend(&mut out, &n);
    crate::text::from_chars(&out)
}


// ---------------------------------------------------------------------------
// The order of paths is a strict total order
// ---------------------------------------------------------------------------

/// No character sequence comes before itself.
pub proof fn lemma_chars_less_irreflexive(a: Seq<char>)
    ensures
        !chars_less(a, a),
    decreases a.len(),
{
    if a.len() > 0 {
        lemma_chars_less_irreflexive(a.drop_first());
    }
}

/// The character order is transitive.
pub proof fn lemma_chars_less_transitive(a: Seq<char>, b: Seq<char>, c: Seq<char>)
    requires
        chars_less(a, b),
        chars_less(b, c),
    ensures
        chars_less(a, c),
    decreases a.len(),
{
    if a.len() > 0 && b.len() > 0 && c.len() > 0 {
        if a[0] == b[0] && b[0] == c[0] {
            lemma_chars_less_transitive(a.drop_first(), b.drop_first(), c.drop_first());
        }
    }
}

/// Two different character sequences are ordered one way or the other.
pub proof fn lemma_chars_less_total(a: Seq<char>, b: Seq<char>)
    requires
        a != b,
    ensures
        chars_less(a, b) || chars_less(b, a),
    decreases a.len(),
{
    if a.len() > 0 && b.len() > 0 && a[0] == b[0] {
        if a.drop_first() == b.drop_first() {
            assert(a =~= seq![a[0]] + a.drop_first());
            assert(b =~= seq![b[0]] + b.drop_first());
        }
        lemma_chars_less_total(a.drop_first(), b.drop_first());
    } else if a.len() == 0 && b.len() == 0 {
        assert(a =~= b);
    }
}

/// No sequence of components comes before itself.
pub proof fn lemma_components_less_irreflexive(a: Seq<Seq<char>>)
    ensures
        !components_less(a, a),
    decreases a.len(),
{
    if a.len() > 0 {
        lemma_components_less_irreflexive(a.drop_first());
    }
}

/// The component order is transitive.
pub proof fn lemma_components_less_transitive(a: Seq<Seq<char>>, b: Seq<Seq<char>>, c: Seq<Seq<char>>)
    requires
        components_less(a, b),
        components_less(b, c),
    ensures
        components_less(a, c),
    decreases a.len(),
{
    if a.len() > 0 && b.len() > 0 && c.len() > 0 {
        if a[0] == b[0] && b[0] == c[0] {
            lemma_components_less_transitive(a.drop_first(), b.drop_first(), c.drop_first());
        } else if a[0] == b[0] {
            // b[0] != c[0], chars_less(b[0], c[0])
        } else if b[0] == c[0] {
            // chars_less(a[0], b[0])
        } else {
            lemma_chars_less_transitive(a[0], b[0], c[0]);
            if a[0] == c[0] {
                lemma_chars_less_irreflexive(a[0]);
                lemma_chars_less_transitive(a[0], b[0], a[0]);
            }
        }
    }
}

/// Two different sequences of components are ordered one way or the other.
pub proof fn lemma_components_less_total(a: Seq<Seq<char>>, b: Seq<Seq<char>>)
    requires
        a != b,
    ensures
        components_less(a, b) || components_less(b, a),
    decreases a.len(),
{
    if a.len() > 0 && b.len() > 0 {
        if a[0] == b[0] {
            if a.drop_first() == b.drop_first() {
                assert(a =~= seq![a[0]] + a.drop_first());
                assert(b =~= seq![b[0]] + b.drop_first());
            }
            lemma_components_less_total(a.drop_first(), b.drop_first());
        } else {
            lemma_chars_less_total(a[0], b[0]);
        }
    } else if a.len() == 0 && b.len() == 0 {
        assert(a =~= b);
    }
}

/// Paths not out of order chain: if `b` does not come before `a` and `c`
/// does not come before `b`, then `c` does not come before `a`.
pub proof fn lemma_path_not_less_transitive(a: Seq<char>, b: Seq<char>, c: Seq<char>)
    requires
        !path_less(b, a),
        !path_less(c, b),
    ensures
        !path_less(c, a),
{
    let (ka, kb, kc) = (path_components(a), path_components(b), path_components(c));
    if ka != kb {
        lemma_components_less_total(ka, kb);
    }
    if kb != kc {
        lemma_components_less_total(kb, kc);
    }
    if components_less(kc, ka) {
        if ka == kb {
            // then kc < kb contradicts
        } else if kb == kc {
        } else {
            lemma_components_less_transitive(ka, kb, kc);
            lemma_components_less_transitive(kc, ka, kb);
        }
        if ka == kb && kb == kc {
            lemma_components_less_irreflexive(ka);
        }
    }
}

/// A path that comes before another does not also come after it.
pub proof fn lemma_path_less_asymmetric(a: Seq<char>, b: Seq<char>)
    requires
        path_less(a, b),
    ensures
        !path_less(b, a),
{
    let (ka, kb) = (path_components(a), path_components(b));
    if components_less(kb, ka) {
        lemma_components_less_transitive(ka, kb, ka);
        lemma_components_less_irreflexive(ka);
    }
}

} // verus!
