//! Character-level helpers for the names and activation tokens of manifests.

use vstd::prelude::*;
use vstd::std_specs::iter::IteratorSpec;

verus! {

/// `i` is the position of the first `c` in `s`.
pub open spec fn is_first(s: Seq<char>, c: char, i: int) -> bool {
    &&& 0 <= i < s.len()
    &&& s[i] == c
    &&& forall|j: int| 0 <= j < i ==> s[j] != c
}

/// The position of the first `c` in `s`, which holds one.
pub open spec fn index_of(s: Seq<char>, c: char) -> int {
    choose|i: int| is_first(s, c, i)
}

/// The first `c` of `s` stands at `i`.
pub proof fn lemma_index_of(s: Seq<char>, c: char, i: int)
    requires
        is_first(s, c, i),
    ensures
        index_of(s, c) == i,
{
    let k = index_of(s, c);
    assert(is_first(s, c, k));
    if k < i {
        assert(s[k] != c);
    } else if k > i {
        assert(s[i] != c);
    }
}

/// What comes before the first `c` of `s`; all of `s` if it holds none.
pub open spec fn before_first(s: Seq<char>, c: char) -> Seq<char> {
    if s.contains(c) {
        s.take(index_of(s, c))
    } else {
        s
    }
}

/// What comes after the first `c` of `s`; nothing if it holds none.
pub open spec fn after_first(s: Seq<char>, c: char) -> Seq<char> {
    if s.contains(c) {
        s.skip(index_of(s, c) + 1)
    } else {
        Seq::empty()
    }
}

/// `s` with every `c` taken out.
pub open spec fn without_char(s: Seq<char>, c: char) -> Seq<char> {
    s.filter(|x: char| x != c)
}

/// `s` with every `a` replaced by `b`.
pub open spec fn replace_char(s: Seq<char>, a: char, b: char) -> Seq<char> {
    s.map_values(|x: char| if x == a { b } else { x })
}

/// The characters of `s`.
pub fn chars_of(s: &str) -> (r: Vec<char>)
    ensures
        r@ == s@,
{
    broadcast use vstd::string::axiom_spec_iter, vstd::string::next_postcondition;

    let mut it = s.chars();
    let mut out: Vec<char> = Vec::new();
    loop
        invariant
            out@ + it.remaining() == s@,
            it.decrease() is Some,
        ensures
            out@ == s@,
        decreases it.decrease()->0,
    {
        match it.next() {
            Some(c) => {
                out.push(c);
            },
            None => {
                assert(out@ + it.remaining() =~= out@);
                break;
            },
        }
    }
    out
}

/// The string of a list of characters.
///
/// Relies on `String: FromIterator<&char>`, which appends the characters in order.
#[verifier::external_body]
pub fn string_of(v: &[char]) -> (r: String)
    ensures
        r@ == v@,
{
    v.iter().collect()
}

/// The index of the first `c` in `s`.
pub fn find_char(s: &Vec<char>, c: char) -> (r: Option<usize>)
    ensures
        r matches Some(i) ==> is_first(s@, c, i as int) && index_of(s@, c) == i as int,
        r is None == !s@.contains(c),
{
    let mut i: usize = 0;
    while i < s.len()
        invariant
            i <= s@.len(),
            forall|j: int| 0 <= j < i ==> s@[j] != c,
        decreases s@.len() - i,
    {
        if s[i] == c {
            proof {
                lemma_index_of(s@, c, i as int);
            }
            return Some(i);
        }
        i = i + 1;
    }
    None
}

/// Whether `s` holds `c`.
pub fn has_char(s: &str, c: char) -> (r: bool)
    ensures
        r == s@.contains(c),
{
    let v = chars_of(s);
    find_char(&v, c).is_some()
}

/// The text before and after the first `c` of `s`, if it holds one.
pub fn split_once(s: &str, c: char) -> (r: Option<(String, String)>)
    ensures
        r is Some == s@.contains(c),
        r matches Some(p) ==> p.0@ == before_first(s@, c) && p.1@ == after_first(s@, c),
{
    let v = chars_of(s);
    match find_char(&v, c) {
        Some(i) => {
            let mut a: Vec<char> = Vec::new();
            let mut b: Vec<char> = Vec::new();
            let mut k: usize = 0;
            while k < v.len()
                invariant
                    i < v@.len(),
                    k <= v@.len(),
                    k <= i ==> a@ == v@.take(k as int),
                    k > i ==> a@ == v@.take(i as int),
                    b@ == (if k > i + 1 { v@.subrange(i + 1, k as int) } else { Seq::<char>::empty() }),
                decreases v@.len() - k,
            {
                if k < i {
                    a.push(v[k]);
                } else if k > i {
                    b.push(v[k]);
                }
                k = k + 1;
                assert(k <= i ==> a@ =~= v@.take(k as int));
                assert(b@ =~= (if k > i + 1 { v@.subrange(i + 1, k as int) } else { Seq::<char>::empty() }));
            }
            assert(v@.subrange(i + 1, v@.len() as int) =~= v@.skip(i + 1));
            proof {
                assert(v@[i as int] == c);
                assert(v@.contains(c));
            }
            Some((string_of(&a), string_of(&b)))
        },
        None => None,
    }
}

/// `s` with every `c` taken out.
pub fn remove_char(s: &str, c: char) -> (r: String)
    ensures
        r@ == without_char(s@, c),
{
    let v = chars_of(s);
    let mut out: Vec<char> = Vec::new();
    let mut k: usize = 0;
    while k < v.len()
        invariant
            k <= v@.len(),
            out@ == without_char(v@.take(k as int), c),
        decreases v@.len() - k,
    {
        proof {
            assert(v@.take(k as int + 1) =~= v@.take(k as int).push(v@[k as int]));
            reveal(Seq::filter);
            assert(v@.take(k as int + 1).drop_last() =~= v@.take(k as int));
        }
        if v[k] != c {
            out.push(v[k]);
        }
        k = k + 1;
    }
    assert(v@.take(v@.len() as int) =~= v@);
    string_of(&out)
}

/// `s` with every `a` replaced by `b`.
pub fn replace(s: &str, a: char, b: char) -> (r: String)
    ensures
        r@ == replace_char(s@, a, b),
{
    let v = chars_of(s);
    let mut out: Vec<char> = Vec::new();
    let mut k: usize = 0;
    while k < v.len()
        invariant
            k <= v@.len(),
            out@ =~= replace_char(v@.take(k as int), a, b),
        decreases v@.len() - k,
    {
        if v[k] == a {
            out.push(b);
        } else {
            out.push(v[k]);
        }
        k = k + 1;
        assert(out@ =~= replace_char(v@.take(k as int), a, b));
    }
    assert(v@.take(v@.len() as int) =~= v@);
    string_of(&out)
}

/// The concatenation of two strings.
pub fn join2(a: &str, b: &str) -> (r: String)
    ensures
        r@ == a@ + b@,
{
    a.to_owned().concat(b)
}


/// Whether `c` has the Unicode `White_Space` property, as `char::is_whitespace`
/// documents it.
pub open spec fn is_ws(c: char) -> bool {
    ('\u{9}' <= c && c <= '\u{d}') || c == ' ' || c == '\u{85}' || c == '\u{a0}' || c == '\u{1680}'
        || ('\u{2000}' <= c && c <= '\u{200a}') || c == '\u{2028}' || c == '\u{2029}' || c == '\u{202f}'
        || c == '\u{205f}' || c == '\u{3000}'
}

/// Whether `c` is whitespace.
pub fn is_whitespace(c: char) -> (r: bool)
    ensures
        r == is_ws(c),
{
    ('\u{9}' <= c && c <= '\u{d}') || c == ' ' || c == '\u{85}' || c == '\u{a0}' || c == '\u{1680}'
        || ('\u{2000}' <= c && c <= '\u{200a}') || c == '\u{2028}' || c == '\u{2029}' || c == '\u{202f}'
        || c == '\u{205f}' || c == '\u{3000}'
}

/// `s` without leading whitespace.
pub open spec fn trim_start(s: Seq<char>) -> Seq<char>
    decreases s.len(),
{
    if s.len() > 0 && is_ws(s[0]) {
        trim_start(s.drop_first())
    } else {
        s
    }
}

/// `s` without trailing whitespace.
pub open spec fn trim_end(s: Seq<char>) -> Seq<char>
    decreases s.len(),
{
    if s.len() > 0 && is_ws(s.last()) {
        trim_end(s.drop_last())
    } else {
        s
    }
}

/// `s` without leading and trailing whitespace.
pub open spec fn trim(s: Seq<char>) -> Seq<char> {
    trim_end(trim_start(s))
}

/// `s` without leading `c`s.
pub open spec fn trim_start_char(s: Seq<char>, c: char) -> Seq<char>
    decreases s.len(),
{
    if s.len() > 0 && s[0] == c {
        trim_start_char(s.drop_first(), c)
    } else {
        s
    }
}

/// `s` without trailing `c`s.
pub open spec fn trim_end_char(s: Seq<char>, c: char) -> Seq<char>
    decreases s.len(),
{
    if s.len() > 0 && s.last() == c {
        trim_end_char(s.drop_last(), c)
    } else {
        s
    }
}

/// Whether `s` ends with `t`.
pub open spec fn ends_with(s: Seq<char>, t: Seq<char>) -> bool {
    s.len() >= t.len() && s.skip(s.len() - t.len()) == t
}

/// Whether `s` starts with `t`.
pub open spec fn starts_with(s: Seq<char>, t: Seq<char>) -> bool {
    s.len() >= t.len() && s.take(t.len() as int) == t
}

proof fn lemma_trim_start_skip(s: Seq<char>, i: int)
    requires
        0 <= i <= s.len(),
        forall|j: int| 0 <= j < i ==> is_ws(#[trigger] s[j]),
    ensures
        trim_start(s) == trim_start(s.skip(i)),
    decreases i,
{
    if i > 0 {
        assert(s.drop_first().skip(i - 1) =~= s.skip(i));
        lemma_trim_start_skip(s.drop_first(), i - 1);
    } else {
        assert(s.skip(0) =~= s);
    }
}

proof fn lemma_trim_end_take(s: Seq<char>, i: int)
    requires
        0 <= i <= s.len(),
        forall|j: int| i <= j < s.len() ==> is_ws(#[trigger] s[j]),
    ensures
        trim_end(s) == trim_end(s.take(i)),
    decreases s.len() - i,
{
    if i < s.len() {
        assert(s.drop_last().take(i) =~= s.take(i));
        lemma_trim_end_take(s.drop_last(), i);
    } else {
        assert(s.take(i) =~= s);
    }
}

proof fn lemma_trim_start_char_skip(s: Seq<char>, c: char, i: int)
    requires
        0 <= i <= s.len(),
        forall|j: int| 0 <= j < i ==> #[trigger] s[j] == c,
    ensures
        trim_start_char(s, c) == trim_start_char(s.skip(i), c),
    decreases i,
{
    if i > 0 {
        assert(s.drop_first().skip(i - 1) =~= s.skip(i));
        lemma_trim_start_char_skip(s.drop_first(), c, i - 1);
    } else {
        assert(s.skip(0) =~= s);
    }
}

proof fn lemma_trim_end_char_take(s: Seq<char>, c: char, i: int)
    requires
        0 <= i <= s.len(),
        forall|j: int| i <= j < s.len() ==> #[trigger] s[j] == c,
    ensures
        trim_end_char(s, c) == trim_end_char(s.take(i), c),
    decreases s.len() - i,
{
    if i < s.len() {
        assert(s.drop_last().take(i) =~= s.take(i));
        lemma_trim_end_char_take(s.drop_last(), c, i);
    } else {
        assert(s.take(i) =~= s);
    }
}

/// The characters of `v` from `a` to `b`, as a string.
fn slice_string(v: &Vec<char>, a: usize, b: usize) -> (r: String)
    requires
        a <= b <= v@.len(),
    ensures
        r@ == v@.subrange(a as int, b as int),
{
    let mut out: Vec<char> = Vec::new();
    let mut k: usize = a;
    while k < b
        invariant
            a <= k <= b,
            b <= v@.len(),
            out@ =~= v@.subrange(a as int, k as int),
        decreases b - k,
    {
        out.push(v[k]);
        k = k + 1;
        assert(out@ =~= v@.subrange(a as int, k as int));
    }
    string_of(&out)
}

/// `s` without leading whitespace.
pub fn trim_start_str(s: &str) -> (r: String)
    ensures
        r@ == trim_start(s@),
{
    let v = chars_of(s);
    let mut i: usize = 0;
    while i < v.len() && is_whitespace(v[i])
        invariant
            i <= v@.len(),
            forall|j: int| 0 <= j < i ==> is_ws(#[trigger] v@[j]),
        decreases v@.len() - i,
    {
        i = i + 1;
    }
    proof {
        lemma_trim_start_skip(v@, i as int);
        assert(v@.skip(v@.len() as int) =~= v@.subrange(v@.len() as int, v@.len() as int));
        assert(v@.skip(i as int) =~= v@.subrange(i as int, v@.len() as int));
    }
    slice_string(&v, i, v.len())
}

/// `s` without trailing whitespace.
pub fn trim_end_str(s: &str) -> (r: String)
    ensures
        r@ == trim_end(s@),
{
    let v = chars_of(s);
    let mut i: usize = v.len();
    while i > 0 && is_whitespace(v[i - 1])
        invariant
            i <= v@.len(),
            forall|j: int| i <= j < v@.len() ==> is_ws(#[trigger] v@[j]),
        decreases i,
    {
        i = i - 1;
    }
    proof {
        lemma_trim_end_take(v@, i as int);
        assert(v@.take(i as int) =~= v@.subrange(0, i as int));
    }
    slice_string(&v, 0, i)
}

/// `s` without leading and trailing whitespace.
pub fn trim_str(s: &str) -> (r: String)
    ensures
        r@ == trim(s@),
{
    let a = trim_start_str(s);
    trim_end_str(a.as_str())
}

/// `s` without leading `c`s.
pub fn trim_start_matches(s: &str, c: char) -> (r: String)
    ensures
        r@ == trim_start_char(s@, c),
{
    let v = chars_of(s);
    let mut i: usize = 0;
    while i < v.len() && v[i] == c
        invariant
            i <= v@.len(),
            forall|j: int| 0 <= j < i ==> #[trigger] v@[j] == c,
        decreases v@.len() - i,
    {
        i = i + 1;
    }
    proof {
        lemma_trim_start_char_skip(v@, c, i as int);
        assert(v@.skip(i as int) =~= v@.subrange(i as int, v@.len() as int));
    }
    slice_string(&v, i, v.len())
}

/// `s` without trailing `c`s.
pub fn trim_end_matches(s: &str, c: char) -> (r: String)
    ensures
        r@ == trim_end_char(s@, c),
{
    let v = chars_of(s);
    let mut i: usize = v.len();
    while i > 0 && v[i - 1] == c
        invariant
            i <= v@.len(),
            forall|j: int| i <= j < v@.len() ==> #[trigger] v@[j] == c,
        decreases i,
    {
        i = i - 1;
    }
    proof {
        lemma_trim_end_char_take(v@, c, i as int);
        assert(v@.take(i as int) =~= v@.subrange(0, i as int));
    }
    slice_string(&v, 0, i)
}

/// Whether `s` ends with `t`.
pub fn ends_with_str(s: &str, t: &str) -> (r: bool)
    ensures
        r == ends_with(s@, t@),
{
    let v = chars_of(s);
    let w = chars_of(t);
    if w.len() > v.len() {
        return false;
    }
    let off = v.len() - w.len();
    let mut j: usize = off;
    while j < v.len()
        invariant
            v@ == s@,
            w@ == t@,
            w@.len() <= v@.len(),
            off == v@.len() - w@.len(),
            off <= j <= v@.len(),
            forall|m: int| off <= m < j ==> v@[m] == w@[m - off],
        decreases v@.len() - j,
    {
        if v[j] != w[j - off] {
            proof {
                assert(v@.skip(off as int)[j - off] != w@[j - off]);
                assert(v@.skip(off as int) != w@);
            }
            return false;
        }
        j = j + 1;
    }
    assert(v@.skip(off as int) =~= w@);
    true
}

/// Whether `s` starts with `t`.
pub fn starts_with_str(s: &str, t: &str) -> (r: bool)
    ensures
        r == starts_with(s@, t@),
{
    let v = chars_of(s);
    let w = chars_of(t);
    if w.len() > v.len() {
        return false;
    }
    let mut k: usize = 0;
    while k < w.len()
        invariant
            v@ == s@,
            w@ == t@,
            w@.len() <= v@.len(),
            k <= w@.len(),
            forall|j: int| 0 <= j < k ==> v@[j] == w@[j],
        decreases w@.len() - k,
    {
        if v[k] != w[k] {
            proof {
                assert(v@.take(w@.len() as int)[k as int] != w@[k as int]);
                assert(v@.take(w@.len() as int) != w@);
            }
            return false;
        }
        k = k + 1;
    }
    assert(v@.take(w@.len() as int) =~= w@);
    true
}


/// One line without its line ending: a final `\r` goes with the `\n`.
pub open spec fn strip_cr(line: Seq<char>) -> Seq<char> {
    if line.len() > 0 && line.last() == '\r' {
        line.drop_last()
    } else {
        line
    }
}

/// The lines of `s` as `str::lines` documents them: split at `\n` or `\r\n`, the
/// final line ending optional, no lines at all for the empty string.
pub open spec fn lines_of(s: Seq<char>) -> Seq<Seq<char>>
    decreases s.len(),
{
    if s.len() == 0 {
        Seq::empty()
    } else if !s.contains('\n') {
        seq![s]
    } else {
        let i = index_of(s, '\n');
        if 0 <= i < s.len() {
            seq![strip_cr(s.take(i))] + lines_of(s.skip(i + 1))
        } else {
            Seq::empty()
        }
    }
}

/// The lines of `parts` joined by `\n`.
pub open spec fn join_lines(parts: Seq<Seq<char>>) -> Seq<char>
    decreases parts.len(),
{
    if parts.len() == 0 {
        Seq::empty()
    } else if parts.len() == 1 {
        parts[0]
    } else {
        join_lines(parts.drop_last()) + "\n"@ + parts.last()
    }
}

/// The lines of `s`.
pub fn lines(s: &str) -> (r: Vec<String>)
    ensures
        r@.map_values(|x: String| x@) == lines_of(s@),
{
    let v = chars_of(s);
    let mut out: Vec<String> = Vec::new();
    let mut start: usize = 0;
    let ghost done: Seq<Seq<char>> = Seq::empty();
    assert(v@.skip(0) =~= v@);
    assert(done + lines_of(v@.skip(0)) =~= lines_of(v@));
    while start < v.len()
        invariant
            v@ == s@,
            start <= v@.len(),
            out@.map_values(|x: String| x@) == done,
            done + lines_of(v@.skip(start as int)) == lines_of(v@),
        decreases v@.len() - start,
    {
        let ghost rest = v@.skip(start as int);
        let mut j: usize = start;
        while j < v.len() && v[j] != '\n'
            invariant
                start <= j <= v@.len(),
                forall|m: int| start <= m < j ==> v@[m] != '\n',
            decreases v@.len() - j,
        {
            j = j + 1;
        }
        let end = if j > start && v[j - 1] == '\r' && j < v.len() {
            j - 1
        } else {
            j
        };
        let line = slice_string(&v, start, end);
        let ghost o = out@;
        out.push(line);
        proof {
            assert(out@.map_values(|x: String| x@) =~= o.map_values(|x: String| x@).push(line@));
            if j < v@.len() {
                assert(rest[j - start] == '\n');
                assert(is_first(rest, '\n', j - start)) by {
                    assert forall|m: int| 0 <= m < j - start implies rest[m] != '\n' by {
                        assert(rest[m] == v@[start + m]);
                    }
                }
                lemma_index_of(rest, '\n', j - start);
                assert(rest.contains('\n'));
                assert(rest.take(j - start) =~= v@.subrange(start as int, j as int));
                assert(rest.skip(j - start + 1) =~= v@.skip(j + 1));
                assert(line@ == strip_cr(rest.take(j - start))) by {
                    if j > start && v@[j - 1] == '\r' {
                        assert(v@.subrange(start as int, j - 1) =~= v@.subrange(start as int, j as int).drop_last());
                    }
                }
                assert(lines_of(rest) == seq![line@] + lines_of(v@.skip(j + 1)));
                assert(done.push(line@) + lines_of(v@.skip(j + 1)) =~= done + (seq![line@] + lines_of(v@.skip(j + 1))));
            } else {
                assert(!rest.contains('\n')) by {
                    if rest.contains('\n') {
                        let m = choose|m: int| 0 <= m < rest.len() && rest[m] == '\n';
                        assert(rest[m] == v@[start + m]);
                    }
                }
                assert(rest =~= v@.subrange(start as int, j as int));
                assert(lines_of(rest) == seq![rest]);
                assert(v@.skip(j as int) =~= Seq::<char>::empty());
                assert(lines_of(v@.skip(j as int)) =~= Seq::<Seq<char>>::empty());
                assert(done.push(line@) + lines_of(v@.skip(j as int)) =~= done + seq![line@]);
            }
        }
        proof {
            done = done.push(line@);
        }
        start = if j < v.len() {
            j + 1
        } else {
            j
        };
    }
    proof {
        assert(v@.skip(start as int) =~= Seq::<char>::empty());
        assert(done + lines_of(v@.skip(start as int)) =~= done);
    }
    out
}

/// The pieces of `parts` joined by `\n`.
pub fn join_with_newlines(parts: &Vec<String>) -> (r: String)
    ensures
        r@ == join_lines(parts@.map_values(|x: String| x@)),
{
    let ghost pv = parts@.map_values(|x: String| x@);
    if parts.len() == 0 {
        return String::new();
    }
    let mut acc = parts[0].clone();
    let mut k: usize = 1;
    while k < parts.len()
        invariant
            pv == parts@.map_values(|x: String| x@),
            1 <= k <= parts@.len(),
            acc@ == join_lines(pv.take(k as int)),
        decreases parts@.len() - k,
    {
        let a = join2(acc.as_str(), "\n");
        acc = join2(a.as_str(), parts[k].as_str());
        proof {
            assert(pv.take(k as int + 1).drop_last() =~= pv.take(k as int));
        }
        k = k + 1;
    }
    assert(pv.take(parts@.len() as int) =~= pv);
    acc
}


/// Taking out a character that does not occur changes nothing.
pub proof fn lemma_without_absent(s: Seq<char>, c: char)
    requires
        !s.contains(c),
    ensures
        without_char(s, c) == s,
    decreases s.len(),
{
    reveal(Seq::filter);
    if s.len() > 0 {
        assert(!s.drop_last().contains(c)) by {
            if s.drop_last().contains(c) {
                let i = choose|i: int| 0 <= i < s.drop_last().len() && s.drop_last()[i] == c;
                assert(s[i] == c);
            }
        }
        lemma_without_absent(s.drop_last(), c);
        assert(s.last() != c) by {
            assert(s[s.len() - 1] == s.last());
        }
        assert(s.drop_last().push(s.last()) =~= s);
    }
}

/// Taking out `c` from `s` followed by `c` is taking it out of `s`.
pub proof fn lemma_without_push(s: Seq<char>, c: char)
    ensures
        without_char(s.push(c), c) == without_char(s, c),
{
    reveal(Seq::filter);
    assert(s.push(c).drop_last() =~= s);
}

} // verus!
