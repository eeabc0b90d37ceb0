//! Text helpers: line endings and the order of names.

use vstd::prelude::*;

verus! {

/// `s` with every `"\r\n"` replaced by `"\n"`, scanning from the left.
pub open spec fn collapsed(s: Seq<char>) -> Seq<char>
    decreases s.len(),
{
    if s.len() == 0 {
        Seq::empty()
    } else if s.len() >= 2 && s[0] == '\r' && s[1] == '\n' {
        seq!['\n'] + collapsed(s.subrange(2, s.len() as int))
    } else {
        seq![s[0]] + collapsed(s.drop_first())
    }
}

proof fn lemma_collapsed_step(s: Seq<char>, i: int)
    requires
        0 <= i < s.len(),
    ensures
        (i + 1 < s.len() && s[i] == '\r' && s[i + 1] == '\n') ==>
            collapsed(s.subrange(i, s.len() as int)) == seq!['\n'] + collapsed(s.subrange(i + 2, s.len() as int)),
        !(i + 1 < s.len() && s[i] == '\r' && s[i + 1] == '\n') ==>
            collapsed(s.subrange(i, s.len() as int)) == seq![s[i]] + collapsed(s.subrange(i + 1, s.len() as int)),
{
    let t = s.subrange(i, s.len() as int);
    if i + 1 < s.len() {
        assert(t.subrange(2, t.len() as int) =~= s.subrange(i + 2, s.len() as int));
    }
    assert(t.drop_first() =~= s.subrange(i + 1, s.len() as int));
}

/// Windows still uses CRLF
pub fn collapse_newlines(s: &str) -> (res: String)
    ensures
        res@ == collapsed(s@),
{
    // Can we skip replacing in *nix and newer Mac? Maybe, but it's such a fast operation
    // that we don't gain much by "optimizing" for the platform.
    let n = s.unicode_len();
    let mut res = String::new();
    let mut start: usize = 0;
    let mut i: usize = 0;
    proof {
        reveal_strlit("\n");
        assert(s@.subrange(0, n as int) =~= s@);
        assert(s@.subrange(0, 0) =~= Seq::<char>::empty());
    }
    while i < n
        invariant
            n == s@.len(),
            start <= i <= n,
            res@ + s@.subrange(start as int, i as int) + collapsed(s@.subrange(i as int, n as int)) == collapsed(s@),
        decreases n - i,
    {
        proof {
            lemma_collapsed_step(s@, i as int);
        }
        let c = s.get_char(i);
        if c == '\r' && i + 1 < n && s.get_char(i + 1) == '\n' {
            let segment = s.substring_char(start, i);
            let ghost before = res@;
            res.append(segment);
            res.append("\n");
            proof {
                reveal_strlit("\n");
                assert(s@.subrange(i as int + 2, i as int + 2) =~= Seq::<char>::empty());
                assert(res@ =~= before + s@.subrange(start as int, i as int) + seq!['\n']);
                assert(before + s@.subrange(start as int, i as int) + (seq!['\n'] + collapsed(
                    s@.subrange(i + 2, n as int),
                )) =~= res@ + s@.subrange(i + 2, i + 2) + collapsed(s@.subrange(i + 2, n as int)));
            }
            i += 2;
            start = i;
        } else {
            proof {
                assert(s@.subrange(start as int, i as int) + seq![s@[i as int]] =~= s@.subrange(start as int, i + 1));
                assert(res@ + s@.subrange(start as int, i as int) + (seq![s@[i as int]] + collapsed(
                    s@.subrange(i + 1, n as int),
                )) =~= res@ + s@.subrange(start as int, i + 1) + collapsed(s@.subrange(i + 1, n as int)));
            }
            i += 1;
        }
    }
    let rest = s.substring_char(start, n);
    res.append(rest);
    proof {
        assert(s@.subrange(n as int, n as int) =~= Seq::<char>::empty());
        assert(collapsed(Seq::<char>::empty()) =~= Seq::<char>::empty());
        assert(res@ =~= collapsed(s@));
    }
    res
}

/// Line endings written to files on platforms that end lines with `'\n'`: the text is written
/// as it is (see `crlf_newlines` for the others).
pub fn expand_newlines(s: &str) -> (res: String)
    ensures
        res@ == s@,
{
    s.to_owned()
}

/// `s` with `"\r\n"` for every `'\n'` that does not already follow a `'\r'`.
pub open spec fn crlf(s: Seq<char>) -> Seq<char>
    decreases s.len(),
{
    if s.len() == 0 {
        Seq::empty()
    } else if s.last() == '\n' && !(s.len() >= 2 && s[s.len() - 2] == '\r') {
        crlf(s.drop_last()) + seq!['\r', '\n']
    } else {
        crlf(s.drop_last()) + seq![s.last()]
    }
}

/// Line endings written to files on platforms that end lines with `"\r\n"`: a `'\r'` goes
/// before every `'\n'` that does not already follow one.
pub fn crlf_newlines(s: &str) -> (res: String)
    ensures
        res@ == crlf(s@),
{
    let n = s.unicode_len();
    let mut res = String::new();
    let mut start: usize = 0;
    let mut i: usize = 0;
    proof {
        assert(s@.take(0) =~= Seq::<char>::empty());
        assert(s@.subrange(0, 0) =~= Seq::<char>::empty());
    }
    while i < n
        invariant
            n == s@.len(),
            start <= i <= n,
            res@ + s@.subrange(start as int, i as int) == crlf(s@.take(i as int)),
        decreases n - i,
    {
        let ghost t = s@.take(i + 1);
        proof {
            assert(t.drop_last() =~= s@.take(i as int));
            assert(t.last() == s@[i as int]);
            if i >= 1 {
                assert(t[t.len() - 2] == s@[i - 1]);
            }
        }
        let c = s.get_char(i);
        let after_cr = i >= 1 && s.get_char(i - 1) == '\r';
        if c == '\n' && !after_cr {
            let segment = s.substring_char(start, i);
            let ghost before = res@;
            res.append(segment);
            res.append("\r");
            proof {
                reveal_strlit("\r");
                assert(res@ =~= before + s@.subrange(start as int, i as int) + seq!['\r']);
                assert(res@ + s@.subrange(i as int, i + 1) =~= crlf(t));
            }
            start = i;
        } else {
            proof {
                assert(res@ + s@.subrange(start as int, i + 1) =~= crlf(t));
            }
        }
        i += 1;
    }
    let rest = s.substring_char(start, n);
    res.append(rest);
    proof {
        assert(s@.take(n as int) =~= s@);
    }
    res
}

/// The number of `'\n'` in `s`.
pub open spec fn newline_count(s: Seq<char>) -> nat
    decreases s.len(),
{
    if s.len() == 0 {
        0
    } else {
        newline_count(s.drop_last()) + if s.last() == '\n' { 1nat } else { 0nat }
    }
}

pub proof fn lemma_newline_count_bound(s: Seq<char>)
    ensures
        newline_count(s) <= s.len(),
    decreases s.len(),
{
    if s.len() > 0 {
        lemma_newline_count_bound(s.drop_last());
    }
}

/// The number of lines of `s`: each `'\n'` ends one, and text after the last one makes one more.
pub open spec fn line_count(s: Seq<char>) -> nat {
    newline_count(s) + if s.len() > 0 && s.last() != '\n' { 1nat } else { 0nat }
}

/// A text has no more lines than characters.
pub proof fn lemma_line_count_bound(s: Seq<char>)
    ensures
        line_count(s) <= s.len(),
{
    if s.len() > 0 {
        lemma_newline_count_bound(s.drop_last());
    }
}

/// The number of lines of `src`.
pub fn count_newlines(src: &str) -> (res: usize)
    ensures
        res == line_count(src@),
{
    let n = src.unicode_len();
    let mut count: usize = 0;
    let mut i: usize = 0;
    while i < n
        invariant
            n == src@.len(),
            i <= n,
            count == newline_count(src@.subrange(0, i as int)),
            count <= i,
        decreases n - i,
    {
        proof {
            assert(src@.subrange(0, i + 1).drop_last() =~= src@.subrange(0, i as int));
        }
        if src.get_char(i) == '\n' {
            count += 1;
        }
        i += 1;
    }
    proof {
        assert(src@.subrange(0, n as int) =~= src@);
        if n > 0 {
            lemma_newline_count_bound(src@.drop_last());
        }
    }
    if n > 0 && src.get_char(n - 1) != '\n' {
        count + 1
    } else {
        count
    }
}

/// The number of lines of the first `n` characters of `src`.
pub fn count_lines_before(src: &str, n: usize) -> (res: usize)
    requires
        n <= src@.len(),
    ensures
        res == line_count(src@.take(n as int)),
{
    let mut count: usize = 0;
    let mut i: usize = 0;
    while i < n
        invariant
            n <= src@.len(),
            i <= n,
            count == newline_count(src@.subrange(0, i as int)),
            count <= i,
        decreases n - i,
    {
        proof {
            assert(src@.subrange(0, i + 1).drop_last() =~= src@.subrange(0, i as int));
        }
        if src.get_char(i) == '\n' {
            count += 1;
        }
        i += 1;
    }
    proof {
        assert(src@.subrange(0, n as int) =~= src@.take(n as int));
        if n > 0 {
            lemma_newline_count_bound(src@.take(n as int).drop_last());
            assert(src@.take(n as int).drop_last().len() + 1 == n);
            assert(src@.take(n as int).last() == src@[n - 1]);
        }
    }
    if n > 0 && src.get_char(n - 1) != '\n' {
        count + 1
    } else {
        count
    }
}

/// `a` comes before `b`: they differ first at a character where `a`'s is smaller, or `a` is a
/// proper prefix of `b`. This is the order of `str`.
pub open spec fn str_lt(a: Seq<char>, b: Seq<char>) -> bool
    decreases a.len(),
{
    if a.len() == 0 {
        b.len() > 0
    } else if b.len() == 0 {
        false
    } else if a[0] != b[0] {
        (a[0] as int) < (b[0] as int)
    } else {
        str_lt(a.drop_first(), b.drop_first())
    }
}

/// No name comes before itself.
pub proof fn lemma_str_lt_irreflexive(a: Seq<char>)
    ensures
        !str_lt(a, a),
    decreases a.len(),
{
    if a.len() > 0 {
        lemma_str_lt_irreflexive(a.drop_first());
    }
}

/// The order of names is transitive.
pub proof fn lemma_str_lt_transitive(a: Seq<char>, b: Seq<char>, c: Seq<char>)
    requires
        str_lt(a, b),
        str_lt(b, c),
    ensures
        str_lt(a, c),
    decreases a.len(),
{
    if a.len() > 0 && b.len() > 0 && c.len() > 0 && a[0] == b[0] && b[0] == c[0] {
        lemma_str_lt_transitive(a.drop_first(), b.drop_first(), c.drop_first());
    }
}

/// Of two different names, one comes before the other.
pub proof fn lemma_str_lt_total(a: Seq<char>, b: Seq<char>)
    requires
        a != b,
    ensures
        str_lt(a, b) || str_lt(b, a),
    decreases a.len(),
{
    if a.len() > 0 && b.len() > 0 {
        if a[0] == b[0] {
            if a.drop_first() == b.drop_first() {
                assert(a =~= seq![a[0]] + a.drop_first());
                assert(b =~= seq![b[0]] + b.drop_first());
            }
            lemma_str_lt_total(a.drop_first(), b.drop_first());
        } else {
            assert(a[0] as int != b[0] as int);
        }
    } else if a.len() == 0 && b.len() == 0 {
        assert(a =~= b);
    }
}

/// Names that agree on their first `i` characters compare as their rests do.
proof fn lemma_str_lt_suffix(a: Seq<char>, b: Seq<char>, i: int)
    requires
        0 <= i <= a.len(),
        i <= b.len(),
        a.subrange(0, i) == b.subrange(0, i),
    ensures
        str_lt(a, b) == str_lt(a.subrange(i, a.len() as int), b.subrange(i, b.len() as int)),
    decreases i,
{
    if i > 0 {
        assert(a[0] == a.subrange(0, i)[0]);
        assert(b[0] == b.subrange(0, i)[0]);
        assert(a.drop_first().subrange(0, i - 1) =~= a.subrange(0, i).drop_first());
        assert(b.drop_first().subrange(0, i - 1) =~= b.subrange(0, i).drop_first());
        lemma_str_lt_suffix(a.drop_first(), b.drop_first(), i - 1);
        assert(a.drop_first().subrange(i - 1, a.len() - 1) =~= a.subrange(i, a.len() as int));
        assert(b.drop_first().subrange(i - 1, b.len() - 1) =~= b.subrange(i, b.len() as int));
    } else {
        assert(a.subrange(0, a.len() as int) =~= a);
        assert(b.subrange(0, b.len() as int) =~= b);
    }
}

/// Whether `a` comes before `b` in the order of `str`.
pub fn str_less(a: &str, b: &str) -> (res: bool)
    ensures
        res == str_lt(a@, b@),
{
    let n = a.unicode_len();
    let m = b.unicode_len();
    let mut i: usize = 0;
    proof {
        assert(a@.subrange(0, 0) =~= b@.subrange(0, 0));
    }
    while i < n && i < m
        invariant
            n == a@.len(),
            m == b@.len(),
            i <= n,
            i <= m,
            a@.subrange(0, i as int) == b@.subrange(0, i as int),
        decreases n - i,
    {
        let x = a.get_char(i);
        let y = b.get_char(i);
        if x != y {
            proof {
                lemma_str_lt_suffix(a@, b@, i as int);
                let ta = a@.subrange(i as int, n as int);
                let tb = b@.subrange(i as int, m as int);
                assert(ta[0] == x && tb[0] == y);
            }
            return x < y;
        }
        proof {
            assert(a@.subrange(0, i + 1) =~= a@.subrange(0, i as int).push(x));
            assert(b@.subrange(0, i + 1) =~= b@.subrange(0, i as int).push(y));
        }
        i += 1;
    }
    proof {
        lemma_str_lt_suffix(a@, b@, i as int);
    }
    i == n && i < m
}

/// A `"{}"` starts at index `i` of `s`.
pub open spec fn braces_at(s: Seq<char>, i: int) -> bool {
    0 <= i && i + 1 < s.len() && s[i] == '{' && s[i + 1] == '}'
}

/// The index of the first `"{}"` of `s` at or after `k`, or -1 where there is none.
pub open spec fn first_braces_from(s: Seq<char>, k: int) -> int
    decreases s.len() - k,
{
    if k < 0 || k + 1 >= s.len() {
        -1
    } else if braces_at(s, k) {
        k
    } else {
        first_braces_from(s, k + 1)
    }
}

/// `s` with its first `"{}"` replaced by `rep`; `s` itself where it holds none.
pub open spec fn replaced_first(s: Seq<char>, rep: Seq<char>) -> Seq<char> {
    let i = first_braces_from(s, 0);
    if i >= 0 {
        s.subrange(0, i) + rep + s.subrange(i + 2, s.len() as int)
    } else {
        s
    }
}

proof fn lemma_first_braces_range(s: Seq<char>, k: int)
    ensures
        first_braces_from(s, k) == -1 || (k <= first_braces_from(s, k) && braces_at(s, first_braces_from(s, k))),
    decreases s.len() - k,
{
    if !(k < 0 || k + 1 >= s.len()) && !braces_at(s, k) {
        lemma_first_braces_range(s, k + 1);
    }
}

/// `s` with its first `"{}"` replaced by `rep`.
pub fn replace_first(s: &str, rep: &str) -> (res: String)
    ensures
        res@ == replaced_first(s@, rep@),
{
    let n = s.unicode_len();
    let mut k: usize = 0;
    while n > 0 && k < n - 1
        invariant
            n == s@.len(),
            k <= n,
            first_braces_from(s@, 0) == first_braces_from(s@, k as int),
        decreases n - k,
    {
        if s.get_char(k) == '{' && s.get_char(k + 1) == '}' {
            let mut res = String::new();
            res.append(s.substring_char(0, k));
            res.append(rep);
            res.append(s.substring_char(k + 2, n));
            return res;
        }
        k += 1;
    }
    proof {
        lemma_first_braces_range(s@, 0);
    }
    s.to_owned()
}

/// The text of a print node: `template` with its first `"{}"` replaced by the first argument,
/// and the first `"{}"` of that replaced by the second. Without a first argument the template
/// is printed as it is.
pub fn interpolate(template: &str, arg0: Option<&str>, arg1: Option<&str>) -> (res: String)
    ensures
        res@ == match (arg0, arg1) {
            (Some(a0), Some(a1)) => replaced_first(replaced_first(template@, a0@), a1@),
            (Some(a0), None) => replaced_first(template@, a0@),
            _ => template@,
        },
{
    match (arg0, arg1) {
        (Some(arg0), Some(arg1)) => {
            let first = replace_first(template, arg0);
            replace_first(first.as_str(), arg1)
        },
        (Some(arg0), None) => replace_first(template, arg0),
        _ => template.to_owned(),
    }
}

} // verus!
