//! Character-level text utilities with exact specifications over `Seq<char>`.
//!
//! Strings are handled as sequences of Unicode scalar values, the view that
//! vstd gives `str` and `String`.

use vstd::prelude::*;

verus! {

/// `String::push`: appends the character `c` to the end of `s`.
#[verifier::external_body]
fn push_char(s: &mut String, c: char)
    ensures
        final(s)@ == old(s)@.push(c),
{
    s.push(c);
}

/// The characters of `s`, in order.
pub fn chars_of(s: &str) -> (res: Vec<char>)
    ensures
        res@ == s@,
{
    let mut res: Vec<char> = Vec::new();
    for c in it: s.chars()
        invariant
            res@ == it.seq().take(it.index() as int),
    {
        res.push(c);
    }
    res
}

/// A `String` holding exactly the characters of `v`.
pub fn string_of(v: &Vec<char>) -> (res: String)
    ensures
        res@ == v@,
{
    let mut res = String::new();
    let mut i: usize = 0;
    while i < v.len()
        invariant
            i <= v.len(),
            res@ == v@.take(i as int),
        decreases v.len() - i,
    {
        push_char(&mut res, v[i]);
        assert(v@.take(i + 1) =~= v@.take(i as int).push(v@[i as int]));
        i += 1;
    }
    assert(v@.take(v.len() as int) =~= v@);
    res
}

/// The characters of `v` from index `from` up to, not including, `to`.
pub fn copy_range(v: &Vec<char>, from: usize, to: usize) -> (res: Vec<char>)
    requires
        from <= to <= v.len(),
    ensures
        res@ == v@.subrange(from as int, to as int),
{
    let mut res: Vec<char> = Vec::new();
    let mut i: usize = from;
    while i < to
        invariant
            from <= i <= to <= v.len(),
            res@ == v@.subrange(from as int, i as int),
        decreases to - i,
    {
        res.push(v[i]);
        assert(v@.subrange(from as int, i + 1) =~= v@.subrange(from as int, i as int).push(
            v@[i as int],
        ));
        i += 1;
    }
    res
}

/// Appends the characters of `src` to `dst`.
pub fn append_chars(dst: &mut Vec<char>, src: &Vec<char>)
    ensures
        final(dst)@ == old(dst)@ + src@,
{
    let mut i: usize = 0;
    while i < src.len()
        invariant
            i <= src.len(),
            dst@ == old(dst)@ + src@.take(i as int),
        decreases src.len() - i,
    {
        dst.push(src[i]);
        assert(src@.take(i + 1) =~= src@.take(i as int).push(src@[i as int]));
        i += 1;
    }
    assert(src@.take(src.len() as int) =~= src@);
}

/// Whether two character sequences are equal.
pub fn chars_equal(a: &Vec<char>, b: &Vec<char>) -> (res: bool)
    ensures
        res == (a@ == b@),
{
    if a.len() != b.len() {
        return false;
    }
    let mut i: usize = 0;
    while i < a.len()
        invariant
            a.len() == b.len(),
            i <= a.len(),
            forall|k: int| 0 <= k < i ==> a@[k] == b@[k],
        decreases a.len() - i,
    {
        if a[i] != b[i] {
            return false;
        }
        i += 1;
    }
    assert(a@ =~= b@);
    true
}

/// Whether `c` has the Unicode `White_Space` property: the characters that
/// `char::is_whitespace` accepts and that `str::trim` removes.
pub open spec fn is_white_space(c: char) -> bool {
    ||| ('\u{9}' <= c && c <= '\u{d}')
    ||| c == ' '
    ||| c == '\u{85}'
    ||| c == '\u{a0}'
    ||| c == '\u{1680}'
    ||| ('\u{2000}' <= c && c <= '\u{200a}')
    ||| c == '\u{2028}'
    ||| c == '\u{2029}'
    ||| c == '\u{202f}'
    ||| c == '\u{205f}'
    ||| c == '\u{3000}'
}

/// Whether `c` is whitespace, as `char::is_whitespace` decides it.
pub fn white_space(c: char) -> (res: bool)
    ensures
        res == is_white_space(c),
{
    ('\u{9}' <= c && c <= '\u{d}') || c == ' ' || c == '\u{85}' || c == '\u{a0}' || c
        == '\u{1680}' || ('\u{2000}' <= c && c <= '\u{200a}') || c == '\u{2028}' || c
        == '\u{2029}' || c == '\u{202f}' || c == '\u{205f}' || c == '\u{3000}'
}

/// `s` without its leading whitespace.
pub open spec fn trim_start(s: Seq<char>) -> Seq<char>
    decreases s.len(),
{
    if s.len() > 0 && is_white_space(s[0]) {
        trim_start(s.drop_first())
    } else {
        s
    }
}

/// `s` without its trailing whitespace.
pub open spec fn trim_end(s: Seq<char>) -> Seq<char>
    decreases s.len(),
{
    if s.len() > 0 && is_white_space(s.last()) {
        trim_end(s.drop_last())
    } else {
        s
    }
}

/// `s` without leading and trailing whitespace, as `str::trim` returns it.
pub open spec fn trimmed(s: Seq<char>) -> Seq<char> {
    trim_end(trim_start(s))
}

proof fn lemma_trim_start_index(s: Seq<char>) -> (i: int)
    ensures
        0 <= i <= s.len(),
        trim_start(s) == s.skip(i),
        forall|k: int| 0 <= k < i ==> is_white_space(#[trigger] s[k]),
        i < s.len() ==> !is_white_space(s[i]),
    decreases s.len(),
{
    if s.len() > 0 && is_white_space(s[0]) {
        let t = s.drop_first();
        let i = lemma_trim_start_index(t);
        assert(t.skip(i) =~= s.skip(i + 1));
        assert forall|k: int| 0 <= k < i + 1 implies is_white_space(#[trigger] s[k]) by {
            if k > 0 {
                assert(s[k] == t[k - 1]);
            }
        }
        i + 1
    } else {
        assert(s.skip(0) =~= s);
        0
    }
}

proof fn lemma_trim_end_index(s: Seq<char>) -> (j: int)
    ensures
        0 <= j <= s.len(),
        trim_end(s) == s.take(j),
        forall|k: int| j <= k < s.len() ==> is_white_space(#[trigger] s[k]),
        j > 0 ==> !is_white_space(s[j - 1]),
    decreases s.len(),
{
    if s.len() > 0 && is_white_space(s.last()) {
        let t = s.drop_last();
        let j = lemma_trim_end_index(t);
        assert(t.take(j) =~= s.take(j));
        assert forall|k: int| j <= k < s.len() implies is_white_space(#[trigger] s[k]) by {
            if k < s.len() - 1 {
                assert(s[k] == t[k]);
            }
        }
        j
    } else {
        assert(s.take(s.len() as int) =~= s);
        s.len() as int
    }
}

/// What `trim` keeps: a contiguous part of `s` such that everything before
/// and after it is whitespace, and that, when not empty, neither starts nor
/// ends with whitespace. The result gives where that part starts and ends.
pub proof fn lemma_trimmed_shape(s: Seq<char>) -> (r: (int, int))
    ensures
        0 <= r.0 <= r.1 <= s.len(),
        trimmed(s) == s.subrange(r.0, r.1),
        forall|k: int| 0 <= k < r.0 ==> is_white_space(#[trigger] s[k]),
        forall|k: int| r.1 <= k < s.len() ==> is_white_space(#[trigger] s[k]),
        r.0 < r.1 ==> !is_white_space(s[r.0]) && !is_white_space(s[r.1 - 1]),
{
    let i = lemma_trim_start_index(s);
    let t = s.skip(i);
    let j = lemma_trim_end_index(t);
    assert(t.take(j) =~= s.subrange(i, i + j));
    assert forall|k: int| i + j <= k < s.len() implies is_white_space(#[trigger] s[k]) by {
        assert(s[k] == t[k - i]);
    }
    if j > 0 {
        assert(s[i] == t[0]);
        assert(s[i + j - 1] == t[j - 1]);
    }
    (i, i + j)
}

/// A text that starts and ends with characters that are not whitespace is
/// its own trimmed form.
pub proof fn lemma_trimmed_unchanged(s: Seq<char>)
    requires
        s.len() > 0,
        !is_white_space(s[0]),
        !is_white_space(s.last()),
    ensures
        trimmed(s) == s,
{
    assert(trim_start(s) == s);
}

/// The characters of `v` without leading and trailing whitespace.
pub fn trim_chars(v: &Vec<char>) -> (res: Vec<char>)
    ensures
        res@ == trimmed(v@),
{
    let mut i: usize = 0;
    assert(v@.skip(0) =~= v@);
    while i < v.len() && white_space(v[i])
        invariant
            i <= v.len(),
            trim_start(v@) == trim_start(v@.skip(i as int)),
        decreases v.len() - i,
    {
        assert(v@.skip(i as int).drop_first() =~= v@.skip(i + 1));
        i += 1;
    }
    if i < v.len() {
        assert(v@.skip(i as int)[0] == v@[i as int]);
    } else {
        assert(v@.skip(i as int) =~= Seq::<char>::empty());
    }
    let ghost t = v@.skip(i as int);
    assert(trim_start(v@) == t);
    assert(v@.subrange(i as int, v.len() as int) =~= t);
    let mut j: usize = v.len();
    while j > i && white_space(v[j - 1])
        invariant
            i <= j <= v.len(),
            trim_end(t) == trim_end(v@.subrange(i as int, j as int)),
        decreases j,
    {
        assert(v@.subrange(i as int, j as int).drop_last() =~= v@.subrange(i as int, j - 1));
        j -= 1;
    }
    if j > i {
        assert(v@.subrange(i as int, j as int).last() == v@[j - 1]);
    } else {
        assert(v@.subrange(i as int, j as int) =~= Seq::<char>::empty());
    }
    copy_range(v, i, j)
}

/// Whether `p` is a prefix of `s`.
pub open spec fn starts_with(s: Seq<char>, p: Seq<char>) -> bool {
    p.len() <= s.len() && s.take(p.len() as int) == p
}

/// Whether `p` is a suffix of `s`.
pub open spec fn ends_with(s: Seq<char>, p: Seq<char>) -> bool {
    p.len() <= s.len() && s.skip(s.len() - p.len()) == p
}

/// Whether `p` is a prefix of `s`, as `str::starts_with` decides it.
pub fn has_prefix(s: &Vec<char>, p: &Vec<char>) -> (res: bool)
    ensures
        res == starts_with(s@, p@),
{
    if p.len() > s.len() {
        return false;
    }
    let mut i: usize = 0;
    while i < p.len()
        invariant
            p.len() <= s.len(),
            i <= p.len(),
            forall|k: int| 0 <= k < i ==> s@[k] == p@[k],
        decreases p.len() - i,
    {
        if s[i] != p[i] {
            assert(s@.take(p.len() as int)[i as int] != p@[i as int]);
            return false;
        }
        i += 1;
    }
    assert(s@.take(p.len() as int) =~= p@);
    true
}

/// Whether `p` is a suffix of `s`, as `str::ends_with` decides it.
pub fn has_suffix(s: &Vec<char>, p: &Vec<char>) -> (res: bool)
    ensures
        res == ends_with(s@, p@),
{
    if p.len() > s.len() {
        return false;
    }
    let off: usize = s.len() - p.len();
    let mut i: usize = 0;
    while i < p.len()
        invariant
            p.len() <= s.len(),
            off == s.len() - p.len(),
            i <= p.len(),
            forall|k: int| 0 <= k < i ==> s@[off + k] == p@[k],
        decreases p.len() - i,
    {
        if s[off + i] != p[i] {
            assert(s@.skip(off as int)[i as int] != p@[i as int]);
            return false;
        }
        i += 1;
    }
    assert(s@.skip(off as int) =~= p@);
    true
}

/// The characters of `s` before the first occurrence of `c`, or all of `s`
/// when `c` does not occur.
pub open spec fn before_char(s: Seq<char>, c: char) -> Seq<char>
    decreases s.len(),
{
    if s.len() == 0 || s[0] == c {
        Seq::empty()
    } else {
        seq![s[0]] + before_char(s.drop_first(), c)
    }
}

/// `before_char` is the prefix that ends at the first occurrence of `c`.
pub proof fn lemma_before_char_prefix(s: Seq<char>, c: char, n: int)
    requires
        0 <= n <= s.len(),
        forall|k: int| 0 <= k < n ==> s[k] != c,
        n == s.len() || s[n] == c,
    ensures
        before_char(s, c) == s.take(n),
    decreases n,
{
    if n == 0 {
        assert(s.take(0) =~= Seq::<char>::empty());
    } else {
        let t = s.drop_first();
        assert forall|k: int| 0 <= k < n - 1 implies t[k] != c by {
            assert(t[k] == s[k + 1]);
        }
        lemma_before_char_prefix(t, c, n - 1);
        assert(seq![s[0]] + t.take(n - 1) =~= s.take(n));
    }
}

/// A line as `str::lines` yields it: a carriage return that ends a line
/// terminated by a line feed is dropped.
pub open spec fn strip_cr(l: Seq<char>) -> Seq<char> {
    if l.len() > 0 && l.last() == '\r' {
        l.drop_last()
    } else {
        l
    }
}

/// The lines of `s`, as `str::lines` yields them: split at each `\n`, with
/// a `\r` before the `\n` removed; the final line ending is optional and an
/// empty text has no lines.
pub open spec fn lines_of(s: Seq<char>) -> Seq<Seq<char>>
    decreases s.len(),
{
    if s.len() == 0 {
        Seq::empty()
    } else {
        let l = before_char(s, '\n');
        if l.len() < s.len() {
            seq![strip_cr(l)] + lines_of(s.skip(l.len() + 1int))
        } else {
            seq![l]
        }
    }
}

/// A line without a line feed, ended by one, is the first line.
pub proof fn lemma_lines_of_newline(line: Seq<char>, after: Seq<char>)
    requires
        forall|k: int| 0 <= k < line.len() ==> line[k] != '\n',
    ensures
        lines_of(line + seq!['\n'] + after) == seq![strip_cr(line)] + lines_of(after),
{
    let s = line + seq!['\n'] + after;
    assert forall|k: int| 0 <= k < line.len() implies s[k] != '\n' by {
        assert(s[k] == line[k]);
    }
    assert(s[line.len() as int] == '\n');
    lemma_before_char_prefix(s, '\n', line.len() as int);
    assert(s.take(line.len() as int) =~= line);
    assert(s.skip(line.len() + 1int) =~= after);
}

/// A text without a line feed is one line, or none when empty.
pub proof fn lemma_lines_of_last(line: Seq<char>)
    requires
        forall|k: int| 0 <= k < line.len() ==> line[k] != '\n',
    ensures
        lines_of(line) == (if line.len() == 0 {
            Seq::<Seq<char>>::empty()
        } else {
            seq![line]
        }),
{
    if line.len() > 0 {
        lemma_before_char_prefix(line, '\n', line.len() as int);
        assert(line.take(line.len() as int) =~= line);
    }
}

/// Field `n` (counting from zero) of `s` split at each `sep`, as
/// `str::split(sep).nth(n)` yields it; `None` when `s` has fewer than `n`
/// separators.
pub open spec fn field(s: Seq<char>, sep: char, n: nat) -> Option<Seq<char>>
    decreases s.len(),
{
    if n == 0 {
        Some(before_char(s, sep))
    } else if s.len() == 0 {
        None
    } else if s[0] == sep {
        field(s.drop_first(), sep, (n - 1) as nat)
    } else {
        field(s.drop_first(), sep, n)
    }
}

/// Field `n` of `v` split at each `sep`.
pub fn nth_field(v: &Vec<char>, sep: char, n: usize) -> (res: Option<Vec<char>>)
    ensures
        match res {
            Some(f) => field(v@, sep, n as nat) == Some(f@),
            None => field(v@, sep, n as nat) is None,
        },
{
    let mut i: usize = 0;
    let mut k: usize = n;
    assert(v@.skip(0) =~= v@);
    while k > 0 && i < v.len()
        invariant
            i <= v.len(),
            k <= n,
            field(v@, sep, n as nat) == field(v@.skip(i as int), sep, k as nat),
        decreases v.len() - i,
    {
        assert(v@.skip(i as int)[0] == v@[i as int]);
        assert(v@.skip(i as int).drop_first() =~= v@.skip(i + 1));
        if v[i] == sep {
            k -= 1;
        }
        i += 1;
    }
    if k > 0 {
        assert(v@.skip(i as int) =~= Seq::<char>::empty());
        return None;
    }
    let mut j: usize = i;
    while j < v.len() && v[j] != sep
        invariant
            i <= j <= v.len(),
            forall|q: int| i <= q < j ==> v@[q] != sep,
        decreases v.len() - j,
    {
        j += 1;
    }
    let ghost s = v@.skip(i as int);
    proof {
        assert forall|q: int| 0 <= q < j - i implies s[q] != sep by {
            assert(s[q] == v@[i + q]);
        }
        if j < v.len() {
            assert(s[j - i] == v@[j as int]);
        }
        lemma_before_char_prefix(s, sep, j - i);
    }
    assert(s.take(j - i) =~= v@.subrange(i as int, j as int));
    Some(copy_range(v, i, j))
}

/// What `str::to_lowercase` returns for a string with the characters `s`:
/// its lowercase form under Unicode's case mapping.
pub uninterp spec fn lowercase_of(s: Seq<char>) -> Seq<char>;

/// `str::to_lowercase`: the lowercase equivalent of `s`. The result is named
/// by `lowercase_of`; beyond that, the contract states only what the
/// documentation gives: each character maps to one or more characters, so
/// the result is empty exactly when `s` is. The Unicode case tables
/// themselves are not stated.
#[verifier::external_body]
pub(crate) fn to_lowercase(s: &str) -> (res: String)
    ensures
        res@ == lowercase_of(s@),
        res@.len() == 0 <==> s@.len() == 0,
{
    s.to_lowercase()
}

/// `a` comes before `b` in the order of Rust's string comparison: the
/// lexicographic order of their characters by code point (which is also the
/// order of their UTF-8 bytes).
pub open spec fn char_seq_less(a: Seq<char>, b: Seq<char>) -> bool
    decreases a.len(),
{
    if a.len() == 0 {
        b.len() > 0
    } else if b.len() == 0 {
        false
    } else if a[0] != b[0] {
        a[0] < b[0]
    } else {
        char_seq_less(a.drop_first(), b.drop_first())
    }
}

/// No sequence comes before itself.
pub proof fn lemma_char_seq_less_irreflexive(a: Seq<char>)
    ensures
        !char_seq_less(a, a),
    decreases a.len(),
{
    if a.len() > 0 {
        lemma_char_seq_less_irreflexive(a.drop_first());
    }
}

/// The order is asymmetric.
pub proof fn lemma_char_seq_less_asymmetric(a: Seq<char>, b: Seq<char>)
    requires
        char_seq_less(a, b),
    ensures
        !char_seq_less(b, a),
    decreases a.len(),
{
    if a.len() > 0 && b.len() > 0 && a[0] == b[0] {
        lemma_char_seq_less_asymmetric(a.drop_first(), b.drop_first());
    }
}

/// The order is transitive.
pub proof fn lemma_char_seq_less_transitive(a: Seq<char>, b: Seq<char>, c: Seq<char>)
    requires
        char_seq_less(a, b),
        char_seq_less(b, c),
    ensures
        char_seq_less(a, c),
    decreases a.len(),
{
    if a.len() > 0 && a[0] == b[0] && b[0] == c[0] {
        lemma_char_seq_less_transitive(a.drop_first(), b.drop_first(), c.drop_first());
    }
}

/// Two different sequences are ordered one way or the other.
pub proof fn lemma_char_seq_less_total(a: Seq<char>, b: Seq<char>)
    requires
        a != b,
    ensures
        char_seq_less(a, b) || char_seq_less(b, a),
    decreases a.len(),
{
    if a.len() > 0 && b.len() > 0 && a[0] == b[0] {
        if a.drop_first() == b.drop_first() {
            assert(a =~= seq![a[0]] + a.drop_first());
            assert(b =~= seq![b[0]] + b.drop_first());
        }
        lemma_char_seq_less_total(a.drop_first(), b.drop_first());
    } else if a.len() == 0 && b.len() == 0 {
        assert(a =~= b);
    }
}

/// `a` comes before `b` exactly when, after their longest common prefix,
/// either `a` has ended and `b` has not, or both go on and `a`'s next
/// character has the smaller code point.
pub proof fn lemma_char_seq_less_first_difference(a: Seq<char>, b: Seq<char>)
    ensures
        char_seq_less(a, b) <==> exists|k: int|
            0 <= k <= a.len() && k <= b.len() && #[trigger] a.take(k) == b.take(k) && ((k
                == a.len() && k < b.len()) || (k < a.len() && k < b.len() && a[k] < b[k])),
    decreases a.len(),
{
    if a.len() == 0 {
        if b.len() > 0 {
            assert(a.take(0) =~= b.take(0));
        }
    } else if b.len() == 0 {
    } else if a[0] != b[0] {
        assert(a.take(0) =~= b.take(0));
        if exists|k: int|
            0 <= k <= a.len() && k <= b.len() && #[trigger] a.take(k) == b.take(k) && ((k
                == a.len() && k < b.len()) || (k < a.len() && k < b.len() && a[k] < b[k])) {
            let k = choose|k: int|
                0 <= k <= a.len() && k <= b.len() && #[trigger] a.take(k) == b.take(k) && ((k
                    == a.len() && k < b.len()) || (k < a.len() && k < b.len() && a[k] < b[k]));
            if k > 0 {
                assert(a.take(k)[0] == b.take(k)[0]);
            }
        }
    } else {
        let a1 = a.drop_first();
        let b1 = b.drop_first();
        lemma_char_seq_less_first_difference(a1, b1);
        if char_seq_less(a, b) {
            let k = choose|k: int|
                0 <= k <= a1.len() && k <= b1.len() && #[trigger] a1.take(k) == b1.take(k) && ((k
                    == a1.len() && k < b1.len()) || (k < a1.len() && k < b1.len() && a1[k] < b1[k]));
            assert(a.take(k + 1) =~= seq![a[0]] + a1.take(k));
            assert(b.take(k + 1) =~= seq![b[0]] + b1.take(k));
            assert(a.take(k + 1) == b.take(k + 1));
        }
        if exists|k: int|
            0 <= k <= a.len() && k <= b.len() && #[trigger] a.take(k) == b.take(k) && ((k
                == a.len() && k < b.len()) || (k < a.len() && k < b.len() && a[k] < b[k])) {
            let k = choose|k: int|
                0 <= k <= a.len() && k <= b.len() && #[trigger] a.take(k) == b.take(k) && ((k
                    == a.len() && k < b.len()) || (k < a.len() && k < b.len() && a[k] < b[k]));
            assert(k > 0);
            assert(a1.take(k - 1) =~= a.take(k).drop_first());
            assert(b1.take(k - 1) =~= b.take(k).drop_first());
            assert(a1.take(k - 1) == b1.take(k - 1));
            if k < a.len() && k < b.len() {
                assert(a[k] == a1[k - 1]);
                assert(b[k] == b1[k - 1]);
            }
        }
    }
}

/// Whether `a` comes before `b` in the order of Rust's string comparison.
pub fn chars_less(a: &Vec<char>, b: &Vec<char>) -> (res: bool)
    ensures
        res == char_seq_less(a@, b@),
{
    let mut i: usize = 0;
    assert(a@.skip(0) =~= a@);
    assert(b@.skip(0) =~= b@);
    while i < a.len() && i < b.len() && a[i] == b[i]
        invariant
            i <= a.len(),
            i <= b.len(),
            char_seq_less(a@, b@) == char_seq_less(a@.skip(i as int), b@.skip(i as int)),
        decreases a.len() - i,
    {
        assert(a@.skip(i as int).drop_first() =~= a@.skip(i + 1));
        assert(b@.skip(i as int).drop_first() =~= b@.skip(i + 1));
        i += 1;
    }
    if i == a.len() {
        i < b.len()
    } else if i == b.len() {
        false
    } else {
        assert(a@.skip(i as int)[0] == a@[i as int]);
        assert(b@.skip(i as int)[0] == b@[i as int]);
        a[i] < b[i]
    }
}

/// Whether `p` occurs as a contiguous part of `s`.
pub open spec fn contains_seq(s: Seq<char>, p: Seq<char>) -> bool {
    exists|i: int| 0 <= i <= s.len() - p.len() && #[trigger] s.subrange(i, i + p.len()) == p
}

/// Whether `p` occurs at position `at` of `s`.
fn occurs_at(s: &Vec<char>, p: &Vec<char>, at: usize) -> (res: bool)
    requires
        at + p.len() <= s.len(),
    ensures
        res == (s@.subrange(at as int, at + p.len()) == p@),
{
    let mut k: usize = 0;
    while k < p.len()
        invariant
            at + p.len() <= s.len(),
            k <= p.len(),
            forall|q: int| 0 <= q < k ==> s@[at + q] == p@[q],
        decreases p.len() - k,
    {
        if s[at + k] != p[k] {
            assert(s@.subrange(at as int, at + p.len())[k as int] != p@[k as int]);
            return false;
        }
        k += 1;
    }
    assert(s@.subrange(at as int, at + p.len()) =~= p@);
    true
}

/// Whether `p` occurs in `s`, as `str::contains` decides it for a string
/// pattern.
pub fn contains_chars(s: &Vec<char>, p: &Vec<char>) -> (res: bool)
    ensures
        res == contains_seq(s@, p@),
{
    if p.len() > s.len() {
        return false;
    }
    let last: usize = s.len() - p.len();
    let mut at: usize = 0;
    while at <= last
        invariant
            last == s.len() - p.len(),
            at <= last + 1,
            forall|q: int| 0 <= q < at ==> #[trigger] s@.subrange(q, q + p.len()) != p@,
        decreases last + 1 - at,
    {
        if occurs_at(s, p, at) {
            return true;
        }
        if at == last {
            return false;
        }
        at += 1;
    }
    false
}

} // verus!
