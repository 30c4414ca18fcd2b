//! Character-level string utilities with the semantics of the `str` methods
//! (`lines`, `trim`, `split_whitespace`, `splitn`) that the parsers rely on.

use vstd::prelude::*;
use vstd::string::StrSliceExecFns;

verus! {

/// Unicode `White_Space` property, the set used by `char::is_whitespace`,
/// `str::trim` and `str::split_whitespace`.
pub open spec fn is_white_space(c: char) -> bool {
    let u = c as u32;
    ||| (0x09 <= u && u <= 0x0d)
    ||| u == 0x20
    ||| u == 0x85
    ||| u == 0xa0
    ||| u == 0x1680
    ||| (0x2000 <= u && u <= 0x200a)
    ||| u == 0x2028
    ||| u == 0x2029
    ||| u == 0x202f
    ||| u == 0x205f
    ||| u == 0x3000
}

/// Executable test for [`is_white_space`].
pub fn char_is_white_space(c: char) -> (b: bool)
    ensures
        b == is_white_space(c),
{
    let u = c as u32;
    (0x09 <= u && u <= 0x0d) || u == 0x20 || u == 0x85 || u == 0xa0 || u == 0x1680 || (0x2000
        <= u && u <= 0x200a) || u == 0x2028 || u == 0x2029 || u == 0x202f || u == 0x205f || u
        == 0x3000
}

/// The characters of `s`, in order.
pub fn chars_of(s: &str) -> (v: Vec<char>)
    ensures
        v@ == s@,
{
    let mut v: Vec<char> = Vec::new();
    for c in it: s.chars()
        invariant
            v@ == it.seq().take(it.index() as int),
    {
        v.push(c);
    }
    v
}

/// `s` without its leading white space.
pub open spec fn trim_start(s: Seq<char>) -> Seq<char>
    decreases s.len(),
{
    if s.len() > 0 && is_white_space(s[0]) {
        trim_start(s.drop_first())
    } else {
        s
    }
}

/// `s` without its trailing white space.
pub open spec fn trim_end(s: Seq<char>) -> Seq<char>
    decreases s.len(),
{
    if s.len() > 0 && is_white_space(s.last()) {
        trim_end(s.drop_last())
    } else {
        s
    }
}

/// `s` without leading and trailing white space, as `str::trim` gives it.
pub open spec fn trim(s: Seq<char>) -> Seq<char> {
    trim_end(trim_start(s))
}

proof fn trim_start_index(s: Seq<char>) -> (i: int)
    ensures
        0 <= i <= s.len(),
        trim_start(s) == s.skip(i),
        forall|k: int| 0 <= k < i ==> is_white_space(#[trigger] s[k]),
        i < s.len() ==> !is_white_space(s[i]),
    decreases s.len(),
{
    if s.len() > 0 && is_white_space(s[0]) {
        let i1 = trim_start_index(s.drop_first());
        assert(s.drop_first().skip(i1) =~= s.skip(i1 + 1));
        assert forall|k: int| 0 <= k < i1 + 1 implies is_white_space(#[trigger] s[k]) by {
            if k > 0 {
                assert(s[k] == s.drop_first()[k - 1]);
            }
        }
        if i1 + 1 < s.len() {
            assert(s[i1 + 1] == s.drop_first()[i1]);
        }
        i1 + 1
    } else {
        assert(s.skip(0) =~= s);
        0
    }
}

proof fn trim_end_index(s: Seq<char>) -> (j: int)
    ensures
        0 <= j <= s.len(),
        trim_end(s) == s.take(j),
        forall|k: int| j <= k < s.len() ==> is_white_space(#[trigger] s[k]),
        j > 0 ==> !is_white_space(s[j - 1]),
    decreases s.len(),
{
    if s.len() > 0 && is_white_space(s.last()) {
        let j1 = trim_end_index(s.drop_last());
        assert(s.drop_last().take(j1) =~= s.take(j1));
        assert forall|k: int| j1 <= k < s.len() implies is_white_space(#[trigger] s[k]) by {
            if k < s.len() - 1 {
                assert(s[k] == s.drop_last()[k]);
            }
        }
        if j1 > 0 {
            assert(s[j1 - 1] == s.drop_last()[j1 - 1]);
        }
        j1
    } else {
        assert(s.take(s.len() as int) =~= s);
        s.len() as int
    }
}

/// `trim` removes exactly the white space at both ends: it gives the part
/// `s[i..j]` of `s` with only white space before `i` and from `j` on, and,
/// unless empty, it begins and ends with a character that is not white
/// space. The bounds are returned.
pub proof fn law_trim_shape(s: Seq<char>) -> (b: (int, int))
    ensures
        0 <= b.0 <= b.1 <= s.len(),
        trim(s) == s.subrange(b.0, b.1),
        forall|k: int| 0 <= k < b.0 ==> is_white_space(#[trigger] s[k]),
        forall|k: int| b.1 <= k < s.len() ==> is_white_space(#[trigger] s[k]),
        b.0 < b.1 ==> !is_white_space(s[b.0]) && !is_white_space(s[b.1 - 1]),
{
    let i = trim_start_index(s);
    let t = s.skip(i);
    let j = trim_end_index(t);
    assert(t.take(j) =~= s.subrange(i, i + j));
    assert forall|k: int| i + j <= k < s.len() implies is_white_space(#[trigger] s[k]) by {
        assert(s[k] == t[k - i]);
    }
    if j > 0 {
        assert(s[i + j - 1] == t[j - 1]);
        assert(s[i] == t[0]);
        if !(i < s.len()) {
            assert(false);
        }
    }
    (i, i + j)
}

/// A text that neither begins nor ends with white space is its own trim.
pub proof fn lemma_trim_plain(s: Seq<char>)
    requires
        s.len() > 0 ==> !is_white_space(s[0]) && !is_white_space(s.last()),
    ensures
        trim(s) == s,
{
}

/// A text without white space is its own trim.
pub proof fn lemma_trim_no_white_space(s: Seq<char>)
    requires
        forall|i: int| 0 <= i < s.len() ==> !is_white_space(#[trigger] s[i]),
    ensures
        trim(s) == s,
{
    if s.len() > 0 {
        assert(!is_white_space(s[s.len() - 1]));
        assert(!is_white_space(s[0]));
    }
    lemma_trim_plain(s);
}

proof fn lemma_trim_start_skip(s: Seq<char>, i: int)
    requires
        0 <= i <= s.len(),
        forall|j: int| 0 <= j < i ==> is_white_space(#[trigger] s[j]),
    ensures
        trim_start(s) == trim_start(s.subrange(i, s.len() as int)),
    decreases i,
{
    if i > 0 {
        assert(s.drop_first().subrange(i - 1, s.drop_first().len() as int) =~= s.subrange(
            i,
            s.len() as int,
        ));
        lemma_trim_start_skip(s.drop_first(), i - 1);
    } else {
        assert(s.subrange(0, s.len() as int) =~= s);
    }
}

proof fn lemma_trim_end_cut(s: Seq<char>, k: int)
    requires
        0 <= k <= s.len(),
        forall|j: int| k <= j < s.len() ==> is_white_space(#[trigger] s[j]),
    ensures
        trim_end(s) == trim_end(s.subrange(0, k)),
    decreases s.len() - k,
{
    if k < s.len() {
        assert(s.drop_last().subrange(0, k) =~= s.subrange(0, k));
        lemma_trim_end_cut(s.drop_last(), k);
    } else {
        assert(s.subrange(0, k) =~= s);
    }
}

/// The bounds `(start, end)` of the trimmed part of `v`: `v[start..end]` is
/// `trim(v)`.
pub fn trim_bounds(v: &Vec<char>) -> (r: (usize, usize))
    ensures
        r.0 <= r.1 <= v.len(),
        v@.subrange(r.0 as int, r.1 as int) == trim(v@),
{
    let n = v.len();
    let mut start: usize = 0;
    while start < n && char_is_white_space(v[start])
        invariant
            start <= n == v.len(),
            forall|j: int| 0 <= j < start ==> is_white_space(#[trigger] v@[j]),
        decreases n - start,
    {
        start = start + 1;
    }
    proof {
        lemma_trim_start_skip(v@, start as int);
    }
    let ghost rest = v@.subrange(start as int, n as int);
    assert(trim_start(v@) == rest);
    let mut end: usize = n;
    while end > start && char_is_white_space(v[end - 1])
        invariant
            start <= end <= n == v.len(),
            rest == v@.subrange(start as int, n as int),
            forall|j: int| end <= j < n ==> is_white_space(#[trigger] v@[j]),
        decreases end,
    {
        end = end - 1;
    }
    proof {
        assert forall|j: int| end - start <= j < rest.len() implies is_white_space(
            #[trigger] rest[j],
        ) by {
            assert(rest[j] == v@[j + start]);
        }
        lemma_trim_end_cut(rest, end - start);
        assert(rest.subrange(0, end - start) =~= v@.subrange(start as int, end as int));
    }
    (start, end)
}

/// `str::trim`, as an owned string.
pub fn trimmed(s: &str) -> (r: String)
    ensures
        r@ == trim(s@),
{
    let v = chars_of(s);
    let (start, end) = trim_bounds(&v);
    s.substring_char(start, end).to_owned()
}

/// `p` without one trailing carriage return.
pub open spec fn strip_cr(p: Seq<char>) -> Seq<char> {
    if p.len() > 0 && p.last() == '\r' {
        p.drop_last()
    } else {
        p
    }
}

/// The lines of `s` as `str::lines` yields them: split at `'\n'`, a `'\r'`
/// just before a `'\n'` dropped, and no empty line after a final `'\n'`.
pub open spec fn lines(s: Seq<char>) -> Seq<Seq<char>>
    decreases s.len(),
{
    if s.len() == 0 {
        seq![]
    } else {
        let k = prefix_len(s, '\n');
        if k < s.len() {
            seq![strip_cr(s.take(k as int))] + lines(s.skip((k + 1) as int))
        } else {
            seq![s]
        }
    }
}

/// `str::lines`: the lines of `s`, each as an owned string.
pub fn lines_of(s: &str) -> (out: Vec<String>)
    ensures
        out.deep_view() == lines(s@),
{
    let v = chars_of(s);
    let n = v.len();
    let mut out: Vec<String> = Vec::new();
    let mut start: usize = 0;
    let mut i: usize = 0;
    assert(v@.skip(0) =~= v@);
    assert(out.deep_view() + lines(v@) =~= lines(v@));
    while i < n
        invariant
            n == v.len(),
            v@ == s@,
            start <= i <= n,
            forall|j: int| start <= j < i ==> #[trigger] v@[j] != '\n',
            lines(v@) == out.deep_view() + lines(v@.skip(start as int)),
        decreases n - i,
    {
        if v[i] == '\n' {
            let ghost rest = v@.skip(start as int);
            proof {
                assert forall|j: int| 0 <= j < i - start implies #[trigger] rest[j] != '\n' by {
                    assert(rest[j] == v@[j + start]);
                }
                lemma_prefix_len(rest, '\n', i - start);
                assert(rest.skip(i - start + 1) =~= v@.skip(i + 1));
            }
            let mut end = i;
            if end > start && v[end - 1] == '\r' {
                end = end - 1;
            }
            let line = s.substring_char(start, end).to_owned();
            assert(line@ =~= strip_cr(rest.take(i - start)));
            let ghost before = out.deep_view();
            out.push(line);
            assert(out.deep_view() =~= before.push(line@));
            assert(lines(rest) =~= seq![line@] + lines(v@.skip(i + 1)));
            start = i + 1;
        }
        i = i + 1;
    }
    let ghost rest = v@.skip(start as int);
    if start < n {
        proof {
            assert forall|j: int| 0 <= j < n - start implies #[trigger] rest[j] != '\n' by {
                assert(rest[j] == v@[j + start]);
            }
            lemma_prefix_len(rest, '\n', n - start);
        }
        let line = s.substring_char(start, n).to_owned();
        assert(line@ =~= rest);
        let ghost before = out.deep_view();
        out.push(line);
        assert(out.deep_view() =~= before.push(line@));
        assert(lines(v@) =~= out.deep_view());
    } else {
        assert(rest.len() == 0);
        assert(lines(v@) =~= out.deep_view());
    }
    out
}

/// Length of the longest prefix of `s` without `c`: the index of the first
/// `c`, or the length of `s` when there is none.
pub open spec fn prefix_len(s: Seq<char>, c: char) -> nat
    decreases s.len(),
{
    if s.len() == 0 || s[0] == c {
        0
    } else {
        1 + prefix_len(s.drop_first(), c)
    }
}

proof fn lemma_prefix_len_append(s: Seq<char>, t: Seq<char>, c: char)
    ensures
        prefix_len(s, c) < s.len() ==> prefix_len(s + t, c) == prefix_len(s, c),
        prefix_len(s, c) == s.len() ==> prefix_len(s + t, c) == s.len() + prefix_len(t, c),
    decreases s.len(),
{
    if s.len() > 0 {
        assert((s + t).drop_first() =~= s.drop_first() + t);
        lemma_prefix_len_append(s.drop_first(), t, c);
    } else {
        assert(s + t =~= t);
    }
}

proof fn lemma_prefix_len_bound(s: Seq<char>, c: char)
    ensures
        prefix_len(s, c) <= s.len(),
        prefix_len(s, c) < s.len() ==> s[prefix_len(s, c) as int] == c,
    decreases s.len(),
{
    if s.len() > 0 && s[0] != c {
        lemma_prefix_len_bound(s.drop_first(), c);
    }
}

/// A final line ending is optional: a text that does not already end in a
/// line break has the same lines with `"\n"` or `"\r\n"` after it.
pub proof fn law_final_line_ending(s: Seq<char>)
    requires
        s.len() > 0,
        s.last() != '\n',
        s.last() != '\r',
    ensures
        lines(s.push('\n')) == lines(s),
        lines(s + seq!['\r', '\n']) == lines(s),
    decreases s.len(),
{
    let k = prefix_len(s, '\n') as int;
    lemma_prefix_len_bound(s, '\n');
    lemma_prefix_len_append(s, seq!['\n'], '\n');
    lemma_prefix_len_append(s, seq!['\r', '\n'], '\n');
    let t1 = s + seq!['\n'];
    let t2 = s + seq!['\r', '\n'];
    assert(s.push('\n') =~= t1);
    if k < s.len() {
        let rest = s.skip(k + 1);
        assert(rest.len() > 0);
        assert(rest.last() == s.last());
        law_final_line_ending(rest);
        assert(prefix_len(t1, '\n') == k);
        assert(prefix_len(t2, '\n') == k);
        assert(t1.take(k) =~= s.take(k));
        assert(t1.skip(k + 1) =~= rest.push('\n'));
        assert(t2.take(k) =~= s.take(k));
        assert(t2.skip(k + 1) =~= rest + seq!['\r', '\n']);
        assert(lines(t1) == seq![strip_cr(t1.take(k))] + lines(t1.skip(k + 1)));
        assert(lines(t2) == seq![strip_cr(t2.take(k))] + lines(t2.skip(k + 1)));
        assert(lines(s) == seq![strip_cr(s.take(k))] + lines(rest));
    } else {
        assert(prefix_len(seq!['\n'], '\n') == 0);
        assert(prefix_len(seq!['\r', '\n'], '\n') == 1) by {
            assert(seq!['\r', '\n'].drop_first() =~= seq!['\n']);
        }
        assert(prefix_len(t1, '\n') == k);
        assert(prefix_len(t2, '\n') == k + 1);
        assert(t1.take(k) =~= s);
        assert(t1.skip(k + 1).len() == 0);
        assert(t2.take(k + 1) =~= s.push('\r'));
        assert(s.push('\r').drop_last() =~= s);
        assert(t2.skip(k + 2).len() == 0);
        assert(lines(Seq::<char>::empty()) == Seq::<Seq<char>>::empty());
        assert(lines(t1) == seq![strip_cr(t1.take(k))] + lines(t1.skip(k + 1)));
        assert(lines(t2) == seq![strip_cr(t2.take(k + 1))] + lines(t2.skip(k + 2)));
        assert(lines(s) == seq![s]);
        assert(seq![s] + Seq::<Seq<char>>::empty() =~= seq![s]);
    }
}

/// The lines of a text that ends in a line break, followed by more text,
/// are the lines of each.
pub proof fn lemma_lines_after_line_break(s: Seq<char>, t: Seq<char>)
    requires
        s.len() > 0,
        s.last() == '\n',
    ensures
        lines(s + t) == lines(s) + lines(t),
    decreases s.len(),
{
    let k = prefix_len(s, '\n') as int;
    lemma_prefix_len_bound(s, '\n');
    if k == s.len() {
        lemma_prefix_len_step_back(s);
    }
    assert(k < s.len());
    lemma_prefix_len_append(s, t, '\n');
    let rest = s.skip(k + 1);
    assert((s + t).take(k) =~= s.take(k));
    assert((s + t).skip(k + 1) =~= rest + t);
    assert(lines(s + t) == seq![strip_cr(s.take(k))] + lines(rest + t));
    assert(lines(s) == seq![strip_cr(s.take(k))] + lines(rest));
    if rest.len() == 0 {
        assert(rest + t =~= t);
        assert(lines(rest) == Seq::<Seq<char>>::empty());
    } else {
        assert(rest.last() == s.last());
        lemma_lines_after_line_break(rest, t);
    }
    assert(lines(s + t) =~= lines(s) + lines(t));
}

proof fn lemma_prefix_len_step_back(s: Seq<char>)
    requires
        s.len() > 0,
        s.last() == '\n',
    ensures
        prefix_len(s, '\n') < s.len(),
    decreases s.len(),
{
    if s[0] != '\n' {
        assert(s.drop_first().len() > 0 ==> s.drop_first().last() == s.last());
        if s.drop_first().len() > 0 {
            lemma_prefix_len_step_back(s.drop_first());
        }
    }
}

/// The lines of a line break followed by a text without line breaks.
pub proof fn lemma_lines_of_break_then_line(x: Seq<char>)
    requires
        forall|i: int| 0 <= i < x.len() ==> #[trigger] x[i] != '\n',
    ensures
        lines(seq!['\n'] + x) == seq![Seq::<char>::empty()] + (if x.len() == 0 {
            Seq::<Seq<char>>::empty()
        } else {
            seq![x]
        }),
{
    let t = seq!['\n'] + x;
    assert(t[0] == '\n');
    assert(prefix_len(t, '\n') == 0);
    assert(t.take(0) =~= Seq::<char>::empty());
    assert(t.skip(1) =~= x);
    if x.len() > 0 {
        lemma_prefix_len(x, '\n', x.len() as int);
        assert(x.skip(x.len() as int).len() == 0);
        assert(lines(x) == seq![x]);
    } else {
        assert(lines(x) == Seq::<Seq<char>>::empty());
    }
}

/// A line added after a text that does not end in a line break becomes its
/// last line.
pub proof fn lemma_lines_push_line(s: Seq<char>, x: Seq<char>)
    requires
        s.len() > 0,
        s.last() != '\n',
        s.last() != '\r',
        x.len() > 0,
        forall|i: int| 0 <= i < x.len() ==> #[trigger] x[i] != '\n',
    ensures
        lines(s + seq!['\n'] + x) == lines(s).push(x),
    decreases s.len(),
{
    let k = prefix_len(s, '\n') as int;
    let t = s + seq!['\n'] + x;
    lemma_prefix_len_bound(s, '\n');
    lemma_prefix_len_append(s, seq!['\n'] + x, '\n');
    assert(t =~= s + (seq!['\n'] + x));
    if k < s.len() {
        let rest = s.skip(k + 1);
        assert(rest.len() > 0);
        assert(rest.last() == s.last());
        lemma_lines_push_line(rest, x);
        assert(t.take(k) =~= s.take(k));
        assert(t.skip(k + 1) =~= rest + seq!['\n'] + x);
        assert(lines(t) == seq![strip_cr(t.take(k))] + lines(t.skip(k + 1)));
        assert(lines(s) == seq![strip_cr(s.take(k))] + lines(rest));
        assert(lines(t) =~= lines(s).push(x));
    } else {
        assert(prefix_len(seq!['\n'] + x, '\n') == 0);
        assert(t.take(k) =~= s);
        assert(t.skip(k + 1) =~= x);
        lemma_prefix_len(x, '\n', x.len() as int);
        assert(x.skip(x.len() as int).len() == 0);
        assert(lines(x) == seq![x]);
        assert(lines(t) == seq![strip_cr(t.take(k))] + lines(t.skip(k + 1)));
        assert(lines(s) == seq![s]);
        assert(lines(t) =~= lines(s).push(x));
    }
}

/// `s` split at its first `c`: the text before it, and the text after it
/// when there is one.
pub open spec fn split_once(s: Seq<char>, c: char) -> (Seq<char>, Option<Seq<char>>) {
    let k = prefix_len(s, c);
    if k < s.len() {
        (s.take(k as int), Some(s.skip((k + 1) as int)))
    } else {
        (s, None)
    }
}

/// `str::splitn(3, c)`: at most three pieces, the last holding the rest.
pub open spec fn split3(s: Seq<char>, c: char) -> Seq<Seq<char>> {
    match split_once(s, c) {
        (a, None) => seq![a],
        (a, Some(rest)) => match split_once(rest, c) {
            (b, None) => seq![a, b],
            (b, Some(tail)) => seq![a, b, tail],
        },
    }
}

pub proof fn lemma_prefix_len(s: Seq<char>, c: char, k: int)
    requires
        0 <= k <= s.len(),
        forall|j: int| 0 <= j < k ==> #[trigger] s[j] != c,
        k == s.len() || s[k] == c,
    ensures
        prefix_len(s, c) == k,
    decreases k,
{
    if k > 0 {
        lemma_prefix_len(s.drop_first(), c, k - 1);
    }
}

/// `s` split at its first `c` (`str::split_once`, with the whole of `s`
/// when there is no `c`).
pub fn split_once_at(s: &str, c: char) -> (r: (String, Option<String>))
    ensures
        (r.0@, r.1.deep_view()) == split_once(s@, c),
{
    let v = chars_of(s);
    let n = v.len();
    let mut i: usize = 0;
    while i < n && v[i] != c
        invariant
            i <= n == v.len(),
            v@ == s@,
            forall|j: int| 0 <= j < i ==> #[trigger] v@[j] != c,
        decreases n - i,
    {
        i = i + 1;
    }
    proof {
        lemma_prefix_len(s@, c, i as int);
    }
    if i < n {
        let before = s.substring_char(0, i).to_owned();
        let after = s.substring_char(i + 1, n).to_owned();
        assert(before@ =~= s@.take(i as int));
        assert(after@ =~= s@.skip(i + 1));
        (before, Some(after))
    } else {
        (s.to_owned(), None)
    }
}

/// `str::splitn(3, c)`.
pub fn split3_at(s: &str, c: char) -> (r: Vec<String>)
    ensures
        r.deep_view() == split3(s@, c),
{
    let mut out: Vec<String> = Vec::new();
    let (a, rest) = split_once_at(s, c);
    match rest {
        None => {
            out.push(a);
            assert(out.deep_view() =~= seq![a@]);
        },
        Some(rest) => {
            let (b, tail) = split_once_at(rest.as_str(), c);
            out.push(a);
            out.push(b);
            match tail {
                None => {
                    assert(out.deep_view() =~= seq![a@, b@]);
                },
                Some(t) => {
                    out.push(t);
                    assert(out.deep_view() =~= seq![a@, b@, t@]);
                },
            }
        },
    }
    out
}

/// Whether `a` and `b` hold the same characters (`str == str`).
pub fn same_text(a: &str, b: &str) -> (r: bool)
    ensures
        r == (a@ == b@),
{
    let va = chars_of(a);
    let vb = chars_of(b);
    if va.len() != vb.len() {
        return false;
    }
    let mut i: usize = 0;
    while i < va.len()
        invariant
            va@ == a@,
            vb@ == b@,
            va.len() == vb.len(),
            i <= va.len(),
            forall|j: int| 0 <= j < i ==> va@[j] == vb@[j],
        decreases va.len() - i,
    {
        if va[i] != vb[i] {
            return false;
        }
        i = i + 1;
    }
    assert(va@ =~= vb@);
    true
}

/// Length of the leading run of non-white-space characters of `s`.
pub open spec fn word_len(s: Seq<char>) -> nat
    decreases s.len(),
{
    if s.len() == 0 || is_white_space(s[0]) {
        0
    } else {
        1 + word_len(s.drop_first())
    }
}

proof fn lemma_word_len(s: Seq<char>, k: int)
    requires
        0 <= k <= s.len(),
        forall|j: int| 0 <= j < k ==> !is_white_space(#[trigger] s[j]),
        k == s.len() || is_white_space(s[k]),
    ensures
        word_len(s) == k,
    decreases k,
{
    if k > 0 {
        lemma_word_len(s.drop_first(), k - 1);
    }
}

pub proof fn lemma_word_len_bound(s: Seq<char>)
    ensures
        word_len(s) <= s.len(),
    decreases s.len(),
{
    if s.len() > 0 {
        lemma_word_len_bound(s.drop_first());
    }
}

/// The words of `s` as `str::split_whitespace` yields them: the maximal runs
/// of non-white-space characters, in order.
pub open spec fn words(s: Seq<char>) -> Seq<Seq<char>>
    decreases s.len(),
{
    if s.len() == 0 {
        seq![]
    } else if is_white_space(s[0]) {
        words(s.drop_first())
    } else {
        let k = word_len(s);
        proof {
            lemma_word_len_bound(s);
        }
        seq![s.take(k as int)] + words(s.skip(k as int))
    }
}

/// `str::split_whitespace().nth(n)`: the `n`-th word of `s`, counting from 0.
pub fn nth_word(s: &str, n: usize) -> (r: Option<String>)
    ensures
        r.deep_view() == (if n < words(s@).len() {
            Some(words(s@)[n as int])
        } else {
            None
        }),
{
    let v = chars_of(s);
    let len = v.len();
    let ghost all = words(s@);
    let ghost mut seen: Seq<Seq<char>> = seq![];
    let mut count: usize = 0;
    let mut i: usize = 0;
    assert(s@.skip(0) =~= s@);
    while i < len
        invariant
            v@ == s@,
            len == v.len(),
            i <= len,
            count == seen.len(),
            count <= n,
            all == words(s@),
            all == seen + words(s@.skip(i as int)),
        decreases len - i,
    {
        let ghost rest = s@.skip(i as int);
        assert(rest[0] == v@[i as int]);
        if char_is_white_space(v[i]) {
            assert(rest.drop_first() =~= s@.skip(i + 1));
            i = i + 1;
        } else {
            let mut j: usize = i + 1;
            while j < len && !char_is_white_space(v[j])
                invariant
                    v@ == s@,
                    len == v.len(),
                    i < j <= len,
                    forall|t: int| i <= t < j ==> !is_white_space(#[trigger] v@[t]),
                decreases len - j,
            {
                j = j + 1;
            }
            proof {
                assert forall|t: int| 0 <= t < j - i implies !is_white_space(#[trigger] rest[t]) by {
                    assert(rest[t] == v@[t + i]);
                }
                if j < len {
                    assert(rest[j - i] == v@[j as int]);
                }
                lemma_word_len(rest, j - i);
                assert(rest.take(j - i) =~= s@.subrange(i as int, j as int));
                assert(rest.skip(j - i) =~= s@.skip(j as int));
            }
            if count == n {
                let w = s.substring_char(i, j).to_owned();
                assert(all[n as int] == w@);
                return Some(w);
            }
            proof {
                seen = seen.push(s@.subrange(i as int, j as int));
            }
            count = count + 1;
            i = j;
        }
    }
    assert(s@.skip(len as int).len() == 0);
    assert(all =~= seen);
    None
}

} // verus!
