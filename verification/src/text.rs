//! Character-level text handling: whitespace, trimming, searching and line
//! splitting, each stated over the `Seq<char>` view of a string.
use vstd::prelude::*;

verus! {

/// The Unicode `White_Space` property, which is what `char::is_whitespace`
/// tests.
pub open spec fn is_ws(c: char) -> bool {
    let u = c as u32;
    ||| 0x9 <= u && u <= 0xd
    ||| u == 0x20
    ||| u == 0x85
    ||| u == 0xa0
    ||| u == 0x1680
    ||| 0x2000 <= u && u <= 0x200a
    ||| u == 0x2028
    ||| u == 0x2029
    ||| u == 0x202f
    ||| u == 0x205f
    ||| u == 0x3000
}

/// Drops the leading whitespace of `s`.
pub open spec fn trim_start(s: Seq<char>) -> Seq<char>
    decreases s.len(),
{
    if s.len() > 0 && is_ws(s[0]) {
        trim_start(s.drop_first())
    } else {
        s
    }
}

/// Drops the trailing whitespace of `s`.
pub open spec fn trim_end(s: Seq<char>) -> Seq<char>
    decreases s.len(),
{
    if s.len() > 0 && is_ws(s.last()) {
        trim_end(s.drop_last())
    } else {
        s
    }
}

/// `s` without leading and trailing whitespace, as `str::trim` gives it.
pub open spec fn trim(s: Seq<char>) -> Seq<char> {
    trim_end(trim_start(s))
}

/// The index of the first `c` in `s`, or `s.len()` when there is none.
pub open spec fn char_pos(s: Seq<char>, c: char) -> nat
    decreases s.len(),
{
    if s.len() == 0 {
        0
    } else if s[0] == c {
        0
    } else {
        1 + char_pos(s.drop_first(), c)
    }
}

/// `x` without one trailing carriage return.
pub open spec fn strip_cr(x: Seq<char>) -> Seq<char> {
    if x.len() > 0 && x.last() == '\r' {
        x.drop_last()
    } else {
        x
    }
}

/// The lines of `s` as `str::lines` yields them: pieces split at `\n`, each
/// without its `\n` and a `\r` right before it; a final line ending is
/// optional, and a bare `\r` at the very end stays.
pub open spec fn lines(s: Seq<char>) -> Seq<Seq<char>>
    decreases s.len(),
{
    if s.len() == 0 {
        seq![]
    } else {
        let i = char_pos(s, '\n');
        if i >= s.len() {
            seq![s]
        } else {
            seq![strip_cr(s.take(i as int))] + lines(s.skip(i as int + 1))
        }
    }
}

/// Whether `c` occurs in `s`.
pub open spec fn has_char(s: Seq<char>, c: char) -> bool {
    exists|k: int| 0 <= k < s.len() && s[k] == c
}

/// The views of a sequence of strings.
pub open spec fn views(v: Seq<String>) -> Seq<Seq<char>> {
    v.map_values(|x: String| x@)
}

pub proof fn lemma_char_pos(s: Seq<char>, c: char, i: int)
    requires
        0 <= i <= s.len(),
        forall|k: int| 0 <= k < i ==> s[k] != c,
        i == s.len() || s[i] == c,
    ensures
        char_pos(s, c) == i,
    decreases i,
{
    if i > 0 {
        lemma_char_pos(s.drop_first(), c, i - 1);
    }
}

pub proof fn lemma_char_pos_bound(s: Seq<char>, c: char)
    ensures
        char_pos(s, c) <= s.len(),
        char_pos(s, c) < s.len() ==> s[char_pos(s, c) as int] == c,
        forall|k: int| 0 <= k < char_pos(s, c) ==> s[k] != c,
    decreases s.len(),
{
    if s.len() > 0 && s[0] != c {
        lemma_char_pos_bound(s.drop_first(), c);
        assert forall|k: int| 0 <= k < char_pos(s, c) implies s[k] != c by {
            if k > 0 {
                assert(s[k] == s.drop_first()[k - 1]);
            }
        }
    }
}

pub proof fn lemma_trim_start_skip(s: Seq<char>, i: int)
    requires
        0 <= i <= s.len(),
        forall|k: int| 0 <= k < i ==> is_ws(s[k]),
        i == s.len() || !is_ws(s[i]),
    ensures
        trim_start(s) == s.skip(i),
    decreases i,
{
    if i == 0 {
        assert(s.skip(0) =~= s);
    } else {
        lemma_trim_start_skip(s.drop_first(), i - 1);
        assert(s.drop_first().skip(i - 1) =~= s.skip(i));
    }
}

pub proof fn lemma_trim_end_take(s: Seq<char>, j: int)
    requires
        0 <= j <= s.len(),
        forall|k: int| j <= k < s.len() ==> is_ws(s[k]),
        j == 0 || !is_ws(s[j - 1]),
    ensures
        trim_end(s) == s.take(j),
    decreases s.len() - j,
{
    if j == s.len() {
        assert(s.take(j) =~= s);
    } else {
        lemma_trim_end_take(s.drop_last(), j);
        assert(s.drop_last().take(j) =~= s.take(j));
    }
}

/// Whether `c` is whitespace, as `char::is_whitespace` decides it.
pub fn is_whitespace(c: char) -> (r: bool)
    ensures
        r == is_ws(c),
{
    let u = c as u32;
    (0x9 <= u && u <= 0xd) || u == 0x20 || u == 0x85 || u == 0xa0 || u == 0x1680 || (0x2000 <= u
        && u <= 0x200a) || u == 0x2028 || u == 0x2029 || u == 0x202f || u == 0x205f || u == 0x3000
}

/// A copy of `s` without leading and trailing whitespace.
pub fn trim_str(s: &str) -> (r: String)
    ensures
        r@ == trim(s@),
{
    let n = s.unicode_len();
    let mut i: usize = 0;
    while i < n && is_whitespace(s.get_char(i))
        invariant
            n == s@.len(),
            i <= n,
            forall|k: int| 0 <= k < i ==> is_ws(s@[k]),
        decreases n - i,
    {
        i = i + 1;
    }
    let mut j: usize = n;
    while j > i && is_whitespace(s.get_char(j - 1))
        invariant
            n == s@.len(),
            i <= j <= n,
            forall|k: int| j <= k < n ==> is_ws(s@[k]),
        decreases j,
    {
        j = j - 1;
    }
    proof {
        lemma_trim_start_skip(s@, i as int);
        let t = s@.skip(i as int);
        lemma_trim_end_take(t, j - i);
        assert(t.take(j - i) =~= s@.subrange(i as int, j as int));
    }
    String::from_str(s.substring_char(i, j))
}

/// The index of the first `c` in `s`, if there is one.
pub fn find_char(s: &str, c: char) -> (r: Option<usize>)
    ensures
        match r {
            Some(i) => i < s@.len() && i == char_pos(s@, c),
            None => char_pos(s@, c) == s@.len(),
        },
{
    let n = s.unicode_len();
    let mut i: usize = 0;
    while i < n
        invariant
            n == s@.len(),
            i <= n,
            forall|k: int| 0 <= k < i ==> s@[k] != c,
        decreases n - i,
    {
        if s.get_char(i) == c {
            proof {
                lemma_char_pos(s@, c, i as int);
            }
            return Some(i);
        }
        i = i + 1;
    }
    proof {
        lemma_char_pos(s@, c, n as int);
    }
    None
}

/// Whether the first character of `s` is `c`.
pub fn starts_with_char(s: &str, c: char) -> (r: bool)
    ensures
        r == (s@.len() > 0 && s@[0] == c),
{
    let n = s.unicode_len();
    n > 0 && s.get_char(0) == c
}

/// The characters of `s` from `from` up to `to`, as a `String`.
pub fn substring(s: &str, from: usize, to: usize) -> (r: String)
    requires
        from <= to <= s@.len(),
    ensures
        r@ == s@.subrange(from as int, to as int),
{
    String::from_str(s.substring_char(from, to))
}

fn strip_cr_exec(x: String) -> (r: String)
    ensures
        r@ == strip_cr(x@),
{
    let n = x.as_str().unicode_len();
    if n > 0 && x.as_str().get_char(n - 1) == '\r' {
        let r = substring(x.as_str(), 0, n - 1);
        assert(r@ =~= x@.drop_last());
        r
    } else {
        x
    }
}

/// The lines of `s`, as `str::lines` yields them.
pub fn split_lines(s: &str) -> (r: Vec<String>)
    ensures
        views(r@) == lines(s@),
{
    let n = s.unicode_len();
    let mut out: Vec<String> = Vec::new();
    let mut start: usize = 0;
    let mut i: usize = 0;
    proof {
        assert(s@.skip(0) =~= s@);
        assert(views(out@) =~= seq![]);
        assert(lines(s@) =~= views(out@) + lines(s@.skip(0)));
    }
    while i < n
        invariant
            n == s@.len(),
            start <= i <= n,
            forall|k: int| start <= k < i ==> s@[k] != '\n',
            lines(s@) == views(out@) + lines(s@.skip(start as int)),
        decreases n - i,
    {
        if s.get_char(i) == '\n' {
            let ghost rest = s@.skip(start as int);
            proof {
                lemma_char_pos(rest, '\n', i - start);
                assert(rest.take(i - start) =~= s@.subrange(start as int, i as int));
                assert(rest.skip(i - start + 1) =~= s@.skip(i + 1));
            }
            let piece = strip_cr_exec(substring(s, start, i));
            let ghost before = views(out@);
            out.push(piece);
            proof {
                assert(views(out@) =~= before.push(piece@));
                assert(lines(rest) =~= seq![piece@] + lines(s@.skip(i + 1)));
                assert(lines(s@) =~= views(out@) + lines(s@.skip(i + 1)));
            }
            start = i + 1;
        }
        i = i + 1;
    }
    if start < n {
        let ghost rest = s@.skip(start as int);
        proof {
            lemma_char_pos(rest, '\n', n - start);
            assert(rest =~= s@.subrange(start as int, n as int));
            assert(s@.skip(n as int).len() == 0);
        }
        let piece = substring(s, start, n);
        let ghost before = views(out@);
        out.push(piece);
        proof {
            assert(views(out@) =~= before.push(piece@));
            assert(lines(rest) =~= seq![piece@]);
        }
    } else {
        proof {
            assert(s@.skip(start as int).len() == 0);
            assert(lines(s@) =~= views(out@));
        }
    }
    out
}

/// `a` followed by `b`.
pub fn cat(a: &str, b: &str) -> (r: String)
    ensures
        r@ == a@ + b@,
{
    String::from_str(a).concat(b)
}

} // verus!

verus! {

pub proof fn lemma_trim_start_len(s: Seq<char>)
    ensures
        trim_start(s).len() <= s.len(),
        s.len() > 0 && is_ws(s[0]) ==> trim_start(s).len() < s.len(),
    decreases s.len(),
{
    if s.len() > 0 && is_ws(s[0]) {
        lemma_trim_start_len(s.drop_first());
    }
}

pub proof fn lemma_trim_end_len(s: Seq<char>)
    ensures
        trim_end(s).len() <= s.len(),
        s.len() > 0 && is_ws(s.last()) ==> trim_end(s).len() < s.len(),
    decreases s.len(),
{
    if s.len() > 0 && is_ws(s.last()) {
        lemma_trim_end_len(s.drop_last());
    }
}

/// A string that trimming leaves unchanged has no whitespace at either end.
pub proof fn lemma_trimmed_ends(s: Seq<char>)
    requires
        trim(s) == s,
        s.len() > 0,
    ensures
        !is_ws(s[0]),
        !is_ws(s.last()),
{
    lemma_trim_start_len(s);
    lemma_trim_end_len(trim_start(s));
    if !is_ws(s[0]) {
        assert(trim_start(s) == s);
        lemma_trim_end_len(s);
    }
}

/// The lines of a text that starts with a line `x` and a line break.
pub proof fn lemma_lines_prefix(x: Seq<char>, y: Seq<char>)
    requires
        !has_char(x, '\n'),
    ensures
        lines(x + seq!['\n'] + y) == seq![strip_cr(x)] + lines(y),
{
    let s = x + seq!['\n'] + y;
    assert forall|k: int| 0 <= k < x.len() implies s[k] != '\n' by {
        assert(s[k] == x[k]);
    }
    lemma_char_pos(s, '\n', x.len() as int);
    assert(s.take(x.len() as int) =~= x);
    assert(s.skip(x.len() as int + 1) =~= y);
}

} // verus!

verus! {

/// `s` with every `c` replaced by `r`.
pub open spec fn replace_char(s: Seq<char>, c: char, r: Seq<char>) -> Seq<char>
    decreases s.len(),
{
    if s.len() == 0 {
        seq![]
    } else {
        (if s[0] == c {
            r
        } else {
            seq![s[0]]
        }) + replace_char(s.drop_first(), c, r)
    }
}

/// Whether `needle` occurs in `hay` at index `i`.
pub open spec fn occurs_at(hay: Seq<char>, needle: Seq<char>, i: int) -> bool {
    0 <= i && i + needle.len() <= hay.len() && hay.subrange(i, i + needle.len()) == needle
}

/// Whether `needle` occurs in `hay` as a run of consecutive characters.
pub open spec fn contains_seq(hay: Seq<char>, needle: Seq<char>) -> bool {
    exists|i: int| occurs_at(hay, needle, i)
}

/// Replacing in a concatenation is replacing in each part.
pub proof fn law_replace_char_concat(a: Seq<char>, b: Seq<char>, c: char, r: Seq<char>)
    ensures
        replace_char(a + b, c, r) == replace_char(a, c, r) + replace_char(b, c, r),
    decreases a.len(),
{
    if a.len() == 0 {
        assert(a + b =~= b);
        assert(replace_char(a, c, r) =~= seq![]);
        assert(seq![] + replace_char(b, c, r) =~= replace_char(b, c, r));
    } else {
        law_replace_char_concat(a.drop_first(), b, c, r);
        assert((a + b).drop_first() =~= a.drop_first() + b);
        assert((a + b)[0] == a[0]);
        let h = if a[0] == c { r } else { seq![a[0]] };
        assert(replace_char(a + b, c, r) =~= h + replace_char(a.drop_first() + b, c, r));
        assert(replace_char(a, c, r) =~= h + replace_char(a.drop_first(), c, r));
    }
}

/// A copy of `s` with every `c` replaced by `r`, as `str::replace` gives it.
pub fn replace_char_str(s: &str, c: char, r: &str) -> (out: String)
    ensures
        out@ == replace_char(s@, c, r@),
{
    let n = s.unicode_len();
    let mut out = String::new();
    let mut i: usize = 0;
    assert(s@.skip(0) =~= s@);
    while i < n
        invariant
            n == s@.len(),
            i <= n,
            replace_char(s@, c, r@) == out@ + replace_char(s@.skip(i as int), c, r@),
        decreases n - i,
    {
        let ghost rest = s@.skip(i as int);
        assert(rest[0] == s@[i as int]);
        assert(rest.drop_first() =~= s@.skip(i + 1));
        let ch = s.get_char(i);
        let ghost before = out@;
        if ch == c {
            out.append(r);
            assert(out@ + replace_char(s@.skip(i + 1), c, r@) =~= before + replace_char(rest, c, r@));
        } else {
            let one = s.substring_char(i, i + 1);
            assert(one@ =~= seq![ch]);
            out.append(one);
            assert(out@ + replace_char(s@.skip(i + 1), c, r@) =~= before + replace_char(rest, c, r@));
        }
        i = i + 1;
    }
    assert(s@.skip(n as int) =~= seq![]);
    assert(out@ + replace_char(s@.skip(n as int), c, r@) =~= out@);
    out
}

/// Whether `needle` occurs in `hay`, as `str::contains` decides it.
pub fn contains_str(hay: &str, needle: &str) -> (r: bool)
    ensures
        r == contains_seq(hay@, needle@),
{
    let n = hay.unicode_len();
    let m = needle.unicode_len();
    if m > n {
        return false;
    }
    let mut i: usize = 0;
    while i <= n - m
        invariant
            n == hay@.len(),
            m == needle@.len(),
            m <= n,
            i <= n - m + 1,
            forall|p: int| 0 <= p < i ==> !occurs_at(hay@, needle@, p),
        decreases n - m + 1 - i,
    {
        let mut j: usize = 0;
        while j < m && hay.get_char(i + j) == needle.get_char(j)
            invariant
                n == hay@.len(),
                m == needle@.len(),
                m <= n,
                i <= n - m,
                j <= m,
                forall|q: int| 0 <= q < j ==> hay@[i + q] == needle@[q],
            decreases m - j,
        {
            j = j + 1;
        }
        if j == m {
            assert(hay@.subrange(i as int, i + m) =~= needle@);
            assert(occurs_at(hay@, needle@, i as int));
            return true;
        }
        assert(hay@.subrange(i as int, i + m)[j as int] != needle@[j as int]);
        i = i + 1;
    }
    assert forall|p: int| !occurs_at(hay@, needle@, p) by {
        if 0 <= p && p + m <= n {
            assert(p < i);
        }
    }
    false
}

} // verus!

verus! {

/// The digits `0` to `9`.
pub open spec fn digits() -> Seq<char> {
    "0123456789"@
}

/// The decimal notation of `n`, without leading zeros.
pub open spec fn decimal(n: nat) -> Seq<char>
    decreases n,
{
    if n < 10 {
        seq![digits()[n as int]]
    } else {
        decimal(n / 10).push(digits()[(n % 10) as int])
    }
}

/// The decimal notation of `n`, as `to_string` writes it.
pub fn decimal_str(n: u64) -> (r: String)
    ensures
        r@ == decimal(n as nat),
    decreases n,
{
    let ds = "0123456789";
    proof {
        reveal_strlit("0123456789");
    }
    if n < 10 {
        let i = n as usize;
        let one = ds.substring_char(i, i + 1);
        assert(one@ =~= seq![digits()[n as int]]);
        String::from_str(one)
    } else {
        let mut s = decimal_str(n / 10);
        let i = (n % 10) as usize;
        let one = ds.substring_char(i, i + 1);
        assert(one@ =~= seq![digits()[(n % 10) as int]]);
        s.append(one);
        s
    }
}

/// The lines of `ls` that hold more than whitespace.
pub open spec fn nonblank(ls: Seq<Seq<char>>) -> Seq<Seq<char>>
    decreases ls.len(),
{
    if ls.len() == 0 {
        seq![]
    } else if trim(ls.last()).len() > 0 {
        nonblank(ls.drop_last()).push(ls.last())
    } else {
        nonblank(ls.drop_last())
    }
}

/// The lines of `s` that hold more than whitespace, as
/// `s.lines().filter(|l| !l.trim().is_empty())` yields them.
pub fn nonblank_lines(s: &str) -> (r: Vec<String>)
    ensures
        views(r@) == nonblank(lines(s@)),
{
    let ls = split_lines(s);
    let n = ls.len();
    let mut out: Vec<String> = Vec::new();
    let mut i: usize = 0;
    while i < n
        invariant
            n == ls@.len(),
            i <= n,
            views(ls@) == lines(s@),
            views(out@) == nonblank(views(ls@).take(i as int)),
        decreases n - i,
    {
        let ghost pre = views(ls@).take(i as int);
        let ghost cur = views(ls@).take(i + 1);
        proof {
            assert(cur.drop_last() =~= pre);
            assert(cur.last() == ls@[i as int]@);
        }
        let t = trim_str(ls[i].as_str());
        if t.as_str().unicode_len() > 0 {
            let line = ls[i].clone();
            let ghost before = views(out@);
            out.push(line);
            assert(views(out@) =~= before.push(line@));
        }
        i = i + 1;
    }
    assert(views(ls@).take(n as int) =~= views(ls@));
    out
}

} // verus!

verus! {

pub proof fn lemma_trim_start_shape(s: Seq<char>)
    ensures
        trim_start(s) == s.skip(s.len() - trim_start(s).len()),
        trim_start(s).len() <= s.len(),
        trim_start(s).len() > 0 ==> !is_ws(trim_start(s)[0]),
    decreases s.len(),
{
    if s.len() > 0 && is_ws(s[0]) {
        lemma_trim_start_shape(s.drop_first());
        let t = trim_start(s.drop_first());
        assert(s.drop_first().skip(s.drop_first().len() - t.len()) =~= s.skip(s.len() - t.len()));
    } else {
        assert(s.skip(0) =~= s);
    }
}

pub proof fn lemma_trim_end_shape(s: Seq<char>)
    ensures
        trim_end(s) == s.take(trim_end(s).len() as int),
        trim_end(s).len() <= s.len(),
        trim_end(s).len() > 0 ==> !is_ws(trim_end(s).last()),
    decreases s.len(),
{
    if s.len() > 0 && is_ws(s.last()) {
        lemma_trim_end_shape(s.drop_last());
        let t = trim_end(s.drop_last());
        assert(s.drop_last().take(t.len() as int) =~= s.take(t.len() as int));
    } else {
        assert(s.take(s.len() as int) =~= s);
    }
}

/// `trim(s)` is the run of `s` from `start` of length `trim(s).len()`.
pub proof fn lemma_trim_shape(s: Seq<char>) -> (start: int)
    ensures
        0 <= start <= s.len(),
        start + trim(s).len() <= s.len(),
        trim(s) == s.subrange(start, start + trim(s).len()),
        trim(s).len() > 0 ==> !is_ws(trim(s)[0]) && !is_ws(trim(s).last()),
{
    lemma_trim_start_shape(s);
    let u = trim_start(s);
    lemma_trim_end_shape(u);
    let start = s.len() - u.len();
    let t = trim(s);
    assert(t =~= s.subrange(start, start + t.len()));
    if t.len() > 0 {
        assert(t[0] == u[0]);
    }
    start
}

/// Trimming twice is trimming once.
pub proof fn lemma_trim_idem(s: Seq<char>)
    ensures
        trim(trim(s)) == trim(s),
{
    let t = trim(s);
    lemma_trim_shape(s);
    if t.len() > 0 {
        lemma_trim_start_skip(t, 0);
        assert(t.skip(0) =~= t);
        lemma_trim_end_take(t, t.len() as int);
        assert(t.take(t.len() as int) =~= t);
    }
}

/// Trimming brings in no character that was not there.
pub proof fn lemma_trim_has_char(s: Seq<char>, c: char)
    ensures
        has_char(trim(s), c) ==> has_char(s, c),
{
    let start = lemma_trim_shape(s);
    if has_char(trim(s), c) {
        let k = choose|k: int| 0 <= k < trim(s).len() && trim(s)[k] == c;
        assert(s[start + k] == c);
    }
}

/// No line holds a line break.
pub proof fn lemma_lines_no_newline(s: Seq<char>)
    ensures
        forall|i: int| 0 <= i < lines(s).len() ==> !has_char(#[trigger] lines(s)[i], '\n'),
    decreases s.len(),
{
    if s.len() > 0 {
        lemma_char_pos_bound(s, '\n');
        let i = char_pos(s, '\n');
        if i < s.len() {
            lemma_lines_no_newline(s.skip(i as int + 1));
            let first = strip_cr(s.take(i as int));
            assert(!has_char(first, '\n')) by {
                if has_char(first, '\n') {
                    let k = choose|k: int| 0 <= k < first.len() && first[k] == '\n';
                    assert(s[k] == '\n');
                }
            }
            let rest = lines(s.skip(i as int + 1));
            assert forall|j: int| 0 <= j < lines(s).len() implies !has_char(#[trigger] lines(s)[j], '\n') by {
                if j > 0 {
                    assert(lines(s)[j] == rest[j - 1]);
                }
            }
        } else {
            assert forall|j: int| 0 <= j < lines(s).len() implies !has_char(#[trigger] lines(s)[j], '\n') by {
                if has_char(s, '\n') {
                    let k = choose|k: int| 0 <= k < s.len() && s[k] == '\n';
                    assert(false);
                }
            }
        }
    }
}

} // verus!

verus! {

/// Whether two strings hold the same characters.
pub fn str_eq(a: &str, b: &str) -> (r: bool)
    ensures
        r == (a@ == b@),
{
    let n = a.unicode_len();
    let m = b.unicode_len();
    if n != m {
        return false;
    }
    let mut i: usize = 0;
    while i < n
        invariant
            n == a@.len(),
            m == b@.len(),
            n == m,
            i <= n,
            forall|j: int| 0 <= j < i ==> a@[j] == b@[j],
        decreases n - i,
    {
        if a.get_char(i) != b.get_char(i) {
            return false;
        }
        i = i + 1;
    }
    assert(a@ =~= b@);
    true
}

} // verus!

verus! {

/// Dropping a trailing whitespace character does not change the trimmed
/// text.
pub proof fn lemma_trim_drop_last_ws(x: Seq<char>)
    requires
        x.len() > 0,
        is_ws(x.last()),
    ensures
        trim(x.drop_last()) == trim(x),
    decreases x.len(),
{
    let d = x.drop_last();
    if x.len() == 1 {
        assert(d.len() == 0);
        assert(trim_start(x) == trim_start(x.drop_first()));
        assert(x.drop_first().len() == 0);
    } else if is_ws(x[0]) {
        let t = x.drop_first();
        lemma_trim_drop_last_ws(t);
        assert(d[0] == x[0]);
        assert(d.drop_first() =~= t.drop_last());
        assert(trim_start(d) == trim_start(d.drop_first()));
        assert(trim_start(x) == trim_start(t));
    } else {
        assert(d[0] == x[0]);
        assert(trim_start(d) == d);
        assert(trim_start(x) == x);
        assert(trim_end(x) == trim_end(d));
    }
}

/// Stripping a carriage return does not change the trimmed text.
pub proof fn lemma_trim_strip_cr(x: Seq<char>)
    ensures
        trim(strip_cr(x)) == trim(x),
{
    if x.len() > 0 && x.last() == '\r' {
        lemma_trim_drop_last_ws(x);
    }
}

} // verus!

verus! {

/// A character occurs in a concatenation when it occurs in one of the parts.
pub proof fn lemma_has_char_concat(a: Seq<char>, b: Seq<char>, c: char)
    ensures
        has_char(a + b, c) <==> has_char(a, c) || has_char(b, c),
{
    if has_char(a + b, c) {
        let k = choose|k: int| 0 <= k < (a + b).len() && (a + b)[k] == c;
        if k >= a.len() {
            assert(b[k - a.len()] == c);
        }
    }
    if has_char(a, c) {
        let k = choose|k: int| 0 <= k < a.len() && a[k] == c;
        assert((a + b)[k] == c);
    }
    if has_char(b, c) {
        let k = choose|k: int| 0 <= k < b.len() && b[k] == c;
        assert((a + b)[k + a.len()] == c);
    }
}

/// Replacing a character that does not occur changes nothing.
pub proof fn lemma_replace_absent(s: Seq<char>, c: char, r: Seq<char>)
    requires
        !has_char(s, c),
    ensures
        replace_char(s, c, r) == s,
    decreases s.len(),
{
    if s.len() > 0 {
        assert(!has_char(s.drop_first(), c)) by {
            if has_char(s.drop_first(), c) {
                let k = choose|k: int| 0 <= k < s.drop_first().len() && s.drop_first()[k] == c;
                assert(s[k + 1] == c);
            }
        }
        lemma_replace_absent(s.drop_first(), c, r);
        assert(s[0] != c);
        assert(seq![s[0]] + s.drop_first() =~= s);
    }
}

} // verus!
