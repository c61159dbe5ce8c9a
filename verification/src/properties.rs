//! The `server.properties` file: a map from keys to values, read from
//! `key=value` lines and written back as sorted `key=value` lines.
use vstd::prelude::*;
use crate::text::{
    cat, char_pos, contains_seq, contains_str, find_char, has_char, lemma_char_pos,
    lemma_char_pos_bound, lemma_has_char_concat, lemma_lines_no_newline, lemma_lines_prefix,
    lemma_replace_absent, lemma_trim_end_shape, lemma_trim_end_take, lemma_trim_has_char,
    lemma_trim_idem, lemma_trim_shape, lemma_trim_start_skip, lemma_trim_strip_cr,
    lemma_trimmed_ends, lines, replace_char, replace_char_str, split_lines, starts_with_char,
    str_eq, strip_cr, substring, trim, trim_str, views,
};

verus! {

/// The map that a sequence of key/value pairs stands for, later pairs
/// overriding earlier ones with the same key.
pub open spec fn pairs_map(s: Seq<(Seq<char>, Seq<char>)>) -> Map<Seq<char>, Seq<char>>
    decreases s.len(),
{
    if s.len() == 0 {
        Map::empty()
    } else {
        pairs_map(s.drop_last()).insert(s.last().0, s.last().1)
    }
}

/// Whether no two pairs of `s` have the same key.
pub open spec fn keys_distinct(s: Seq<(Seq<char>, Seq<char>)>) -> bool {
    forall|i: int, j: int| 0 <= i < j < s.len() ==> s[i].0 != s[j].0
}

/// The views of a sequence of string pairs.
pub open spec fn pair_views(s: Seq<(String, String)>) -> Seq<(Seq<char>, Seq<char>)> {
    s.map_values(|p: (String, String)| (p.0@, p.1@))
}

/// The properties of a Minecraft server, as a map from keys to values.
pub struct ServerProperties {
    entries: Vec<(String, String)>,
}

impl View for ServerProperties {
    type V = Map<Seq<char>, Seq<char>>;

    closed spec fn view(&self) -> Map<Seq<char>, Seq<char>> {
        pairs_map(pair_views(self.entries@))
    }
}

pub proof fn lemma_pairs_map_dom(s: Seq<(Seq<char>, Seq<char>)>)
    ensures
        pairs_map(s).dom().finite(),
        forall|k: Seq<char>|
            pairs_map(s).dom().contains(k) <==> exists|i: int| 0 <= i < s.len() && s[i].0 == k,
    decreases s.len(),
{
    if s.len() > 0 {
        let t = s.drop_last();
        lemma_pairs_map_dom(t);
        assert forall|k: Seq<char>|
            pairs_map(s).dom().contains(k) <==> exists|i: int| 0 <= i < s.len() && s[i].0 == k by {
            if pairs_map(s).dom().contains(k) {
                if k == s.last().0 {
                    assert(s[s.len() - 1].0 == k);
                } else {
                    let i = choose|i: int| 0 <= i < t.len() && t[i].0 == k;
                    assert(s[i].0 == k);
                }
            }
            if exists|i: int| 0 <= i < s.len() && s[i].0 == k {
                let i = choose|i: int| 0 <= i < s.len() && s[i].0 == k;
                if i < s.len() - 1 {
                    assert(t[i].0 == k);
                }
            }
        }
    }
}

pub proof fn lemma_pairs_map_value(s: Seq<(Seq<char>, Seq<char>)>, i: int)
    requires
        keys_distinct(s),
        0 <= i < s.len(),
    ensures
        pairs_map(s).dom().contains(s[i].0),
        pairs_map(s)[s[i].0] == s[i].1,
    decreases s.len(),
{
    let t = s.drop_last();
    if i < s.len() - 1 {
        lemma_pairs_map_value(t, i);
        assert(t[i] == s[i]);
    }
}

proof fn lemma_pairs_map_update(s: Seq<(Seq<char>, Seq<char>)>, j: int, v: Seq<char>)
    requires
        keys_distinct(s),
        0 <= j < s.len(),
    ensures
        keys_distinct(s.update(j, (s[j].0, v))),
        pairs_map(s.update(j, (s[j].0, v))) == pairs_map(s).insert(s[j].0, v),
{
    let u = s.update(j, (s[j].0, v));
    assert(keys_distinct(u));
    lemma_pairs_map_dom(s);
    lemma_pairs_map_dom(u);
    assert forall|k: Seq<char>| #[trigger]
        pairs_map(u).dom().contains(k) implies pairs_map(u)[k] == pairs_map(s).insert(
        s[j].0,
        v,
    )[k] by {
        let i = choose|i: int| 0 <= i < u.len() && u[i].0 == k;
        lemma_pairs_map_value(u, i);
        lemma_pairs_map_value(s, i);
    }
    assert forall|k: Seq<char>|
        pairs_map(u).dom().contains(k) <==> #[trigger] pairs_map(s).insert(
            s[j].0,
            v,
        ).dom().contains(k) by {
        if pairs_map(s).dom().contains(k) {
            let i = choose|i: int| 0 <= i < s.len() && s[i].0 == k;
            assert(u[i].0 == k);
        }
        if k == s[j].0 {
            assert(u[j].0 == k);
        }
        if pairs_map(u).dom().contains(k) {
            let i = choose|i: int| 0 <= i < u.len() && u[i].0 == k;
            assert(s[i].0 == k);
        }
    }
    assert(pairs_map(u) =~= pairs_map(s).insert(s[j].0, v));
}

proof fn lemma_pairs_map_push(s: Seq<(Seq<char>, Seq<char>)>, k: Seq<char>, v: Seq<char>)
    requires
        keys_distinct(s),
        !pairs_map(s).dom().contains(k),
    ensures
        keys_distinct(s.push((k, v))),
        pairs_map(s.push((k, v))) == pairs_map(s).insert(k, v),
{
    lemma_pairs_map_dom(s);
    let u = s.push((k, v));
    assert forall|i: int, j: int| 0 <= i < j < u.len() implies u[i].0 != u[j].0 by {
        if j == s.len() {
            assert(s[i].0 == u[i].0);
        }
    }
    assert(u.drop_last() =~= s);
}

impl ServerProperties {
    #[verifier::type_invariant]
    closed spec fn wf(self) -> bool {
        keys_distinct(pair_views(self.entries@))
    }

    /// An empty set of properties.
    pub fn new() -> (r: Self)
        ensures
            r@ == Map::<Seq<char>, Seq<char>>::empty(),
    {
        let r = ServerProperties { entries: Vec::new() };
        assert(pair_views(r.entries@) =~= seq![]);
        r
    }

    /// The number of keys.
    pub fn len(&self) -> (r: usize)
        ensures
            self@.dom().finite(),
            r == self@.dom().len(),
    {
        proof {
            use_type_invariant(self);
            self.lemma_dom_len();
        }
        self.entries.len()
    }

    proof fn lemma_dom_len(&self)
        requires
            self.wf(),
        ensures
            self@.dom().finite(),
            self@.dom().len() == self.entries@.len(),
    {
        let s = pair_views(self.entries@);
        lemma_pairs_map_dom(s);
        lemma_distinct_len(s);
    }

    /// The value stored under `key`, if there is one.
    pub fn get(&self, key: &str) -> (r: Option<String>)
        ensures
            match r {
                Some(v) => self@.dom().contains(key@) && v@ == self@[key@],
                None => !self@.dom().contains(key@),
            },
    {
        proof {
            use_type_invariant(self);
        }
        let ghost s = pair_views(self.entries@);
        let n = self.entries.len();
        let mut i: usize = 0;
        while i < n
            invariant
                n == self.entries@.len(),
                s == pair_views(self.entries@),
                keys_distinct(s),
                i <= n,
                forall|j: int| 0 <= j < i ==> s[j].0 != key@,
            decreases n - i,
        {
            if str_eq(self.entries[i].0.as_str(), key) {
                proof {
                    lemma_pairs_map_value(s, i as int);
                }
                return Some(self.entries[i].1.clone());
            }
            i = i + 1;
        }
        proof {
            lemma_pairs_map_dom(s);
        }
        None
    }

    /// Stores `value` under `key`, replacing what was stored there.
    pub fn insert(&mut self, key: String, value: String)
        ensures
            final(self)@ == old(self)@.insert(key@, value@),
    {
        proof {
            use_type_invariant(&*self);
        }
        let ghost s = pair_views(self.entries@);
        let n = self.entries.len();
        let mut i: usize = 0;
        while i < n
            invariant
                n == self.entries@.len(),
                s == pair_views(self.entries@),
                *self == *old(self),
                keys_distinct(s),
                i <= n,
                forall|j: int| 0 <= j < i ==> s[j].0 != key@,
            decreases n - i,
        {
            if str_eq(self.entries[i].0.as_str(), key.as_str()) {
                proof {
                    assert(s[i as int].0 == self.entries@[i as int].0@);
                    assert(s[i as int].0 == key@);
                    lemma_pairs_map_update(s, i as int, value@);
                }
                let ghost vv = value@;
                let k2 = self.entries[i].0.clone();
                let mut entries: Vec<(String, String)> = Vec::new();
                std::mem::swap(&mut entries, &mut self.entries);
                entries.set(i, (k2, value));
                proof {
                    assert(pair_views(entries@) =~= s.update(i as int, (s[i as int].0, vv)));
                }
                self.entries = entries;
                return ;
            }
            i = i + 1;
        }
        proof {
            lemma_pairs_map_dom(s);
            lemma_pairs_map_push(s, key@, value@);
        }
        let ghost kv = (key@, value@);
        let mut entries: Vec<(String, String)> = Vec::new();
                std::mem::swap(&mut entries, &mut self.entries);
        entries.push((key, value));
        proof {
            assert(pair_views(entries@) =~= s.push(kv));
        }
        self.entries = entries;
    }

    /// The key/value pairs, each key once, in no particular order.
    pub fn pairs(&self) -> (r: Vec<(String, String)>)
        ensures
            keys_distinct(pair_views(r@)),
            pairs_map(pair_views(r@)) == self@,
    {
        proof {
            use_type_invariant(self);
        }
        let n = self.entries.len();
        let mut out: Vec<(String, String)> = Vec::new();
        let mut i: usize = 0;
        while i < n
            invariant
                n == self.entries@.len(),
                i <= n,
                pair_views(out@) == pair_views(self.entries@).take(i as int),
            decreases n - i,
        {
            let k = self.entries[i].0.clone();
            let v = self.entries[i].1.clone();
            let ghost pre = out@;
            out.push((k, v));
            proof {
                assert(out@ == pre.push((k, v)));
                assert(pair_views(out@) =~= pair_views(pre).push((k@, v@)));
                assert(pair_views(self.entries@)[i as int] == (k@, v@));
                assert(pair_views(out@) =~= pair_views(self.entries@).take(i + 1));
            }
            i = i + 1;
        }
        assert(pair_views(self.entries@).take(n as int) =~= pair_views(self.entries@));
        out
    }
}

proof fn lemma_distinct_len(s: Seq<(Seq<char>, Seq<char>)>)
    requires
        keys_distinct(s),
    ensures
        pairs_map(s).dom().len() == s.len(),
    decreases s.len(),
{
    if s.len() > 0 {
        let t = s.drop_last();
        assert(keys_distinct(t));
        lemma_distinct_len(t);
        lemma_pairs_map_dom(t);
        if pairs_map(t).dom().contains(s.last().0) {
            let i = choose|i: int| 0 <= i < t.len() && t[i].0 == s.last().0;
            assert(s[i].0 == s[s.len() - 1].0);
        }
    }
}

/// What one line of a properties file holds: nothing for a blank line, a
/// comment (its first non-blank character is `#`) or a line without `=`;
/// otherwise the trimmed text before the first `=` as key and the trimmed
/// text after it as value.
pub open spec fn parse_line(line: Seq<char>) -> Option<(Seq<char>, Seq<char>)> {
    let t = trim(line);
    if t.len() == 0 || t[0] == '#' {
        None
    } else {
        let i = char_pos(t, '=');
        if i >= t.len() {
            None
        } else {
            Some((trim(t.take(i as int)), trim(t.skip(i as int + 1))))
        }
    }
}

/// The properties that a sequence of lines holds, a later line overriding
/// an earlier one with the same key.
pub open spec fn parse_properties(ls: Seq<Seq<char>>) -> Map<Seq<char>, Seq<char>>
    decreases ls.len(),
{
    if ls.len() == 0 {
        Map::empty()
    } else {
        let m = parse_properties(ls.drop_last());
        match parse_line(ls.last()) {
            Some(kv) => m.insert(kv.0, kv.1),
            None => m,
        }
    }
}

/// Reads the properties from the text of a `server.properties` file.
pub fn load_server_properties_str(content: &str) -> (r: ServerProperties)
    ensures
        r@ == parse_properties(lines(content@)),
{
    let ls = split_lines(content);
    let mut props = ServerProperties::new();
    let n = ls.len();
    let mut i: usize = 0;
    while i < n
        invariant
            n == ls@.len(),
            i <= n,
            views(ls@) == lines(content@),
            props@ == parse_properties(views(ls@).take(i as int)),
        decreases n - i,
    {
        let ghost pre = views(ls@).take(i as int);
        let ghost cur = views(ls@).take(i + 1);
        proof {
            assert(cur.drop_last() =~= pre);
            assert(cur.last() == ls@[i as int]@);
        }
        let t = trim_str(ls[i].as_str());
        if !(t.as_str().unicode_len() == 0 || starts_with_char(t.as_str(), '#')) {
            match find_char(t.as_str(), '=') {
                Some(idx) => {
                    let tl = t.as_str().unicode_len();
                    let k = trim_str(substring(t.as_str(), 0, idx).as_str());
                    let v = trim_str(substring(t.as_str(), idx + 1, tl).as_str());
                    proof {
                        assert(t@.subrange(0, idx as int) =~= t@.take(idx as int));
                        assert(t@.subrange(idx + 1, tl as int) =~= t@.skip(idx + 1));
                    }
                    props.insert(k, v);
                },
                None => {},
            }
        }
        i = i + 1;
    }
    assert(views(ls@).take(n as int) =~= views(ls@));
    props
}

} // verus!

verus! {

/// The line that stands for one property.
pub open spec fn property_line(k: Seq<char>, v: Seq<char>) -> Seq<char> {
    k + seq!['='] + v
}

/// Lexicographic order on characters, compared by code point. On strings it
/// agrees with the order of `String`, which compares UTF-8 bytes, since UTF-8
/// keeps the order of code points.
pub open spec fn lex_le(a: Seq<char>, b: Seq<char>) -> bool
    decreases a.len(),
{
    if a.len() == 0 {
        true
    } else if b.len() == 0 {
        false
    } else if a[0] != b[0] {
        a[0] < b[0]
    } else {
        lex_le(a.drop_first(), b.drop_first())
    }
}

/// Whether `ls` is in ascending lexicographic order.
pub open spec fn sorted(ls: Seq<Seq<char>>) -> bool {
    forall|i: int, j: int| 0 <= i < j < ls.len() ==> lex_le(ls[i], ls[j])
}

/// The lines `ls` joined with `\n` between them.
pub open spec fn join_lines(ls: Seq<Seq<char>>) -> Seq<char>
    decreases ls.len(),
{
    if ls.len() == 0 {
        seq![]
    } else if ls.len() == 1 {
        ls[0]
    } else {
        join_lines(ls.drop_last()) + seq!['\n'] + ls.last()
    }
}

/// The lines of the properties `m`, taken in the key order `ks`.
pub open spec fn lines_of(m: Map<Seq<char>, Seq<char>>, ks: Seq<Seq<char>>) -> Seq<Seq<char>> {
    ks.map_values(|k: Seq<char>| property_line(k, m[k]))
}

/// Whether `ks` lists every key of `m` once, in the order that sorts the
/// lines of `m`.
pub open spec fn is_listing(m: Map<Seq<char>, Seq<char>>, ks: Seq<Seq<char>>) -> bool {
    &&& ks.no_duplicates()
    &&& ks.to_set() == m.dom()
    &&& sorted(lines_of(m, ks))
}

/// The text of a properties file for `m`, with its keys in the order `ks`:
/// the lines joined by `\n`, with a final `\n`.
pub open spec fn serialized(m: Map<Seq<char>, Seq<char>>, ks: Seq<Seq<char>>) -> Seq<char> {
    join_lines(lines_of(m, ks)) + seq!['\n']
}

pub proof fn lemma_lex_le_total(a: Seq<char>, b: Seq<char>)
    ensures
        lex_le(a, b) || lex_le(b, a),
    decreases a.len(),
{
    if a.len() > 0 && b.len() > 0 && a[0] == b[0] {
        lemma_lex_le_total(a.drop_first(), b.drop_first());
    }
}

pub proof fn lemma_lex_le_trans(a: Seq<char>, b: Seq<char>, c: Seq<char>)
    requires
        lex_le(a, b),
        lex_le(b, c),
    ensures
        lex_le(a, c),
    decreases a.len(),
{
    if a.len() > 0 && b.len() > 0 && c.len() > 0 && a[0] == b[0] && b[0] == c[0] {
        lemma_lex_le_trans(a.drop_first(), b.drop_first(), c.drop_first());
    }
}

proof fn lemma_lex_le_skip(a: Seq<char>, b: Seq<char>, i: int)
    requires
        0 <= i <= a.len(),
        i <= b.len(),
        a.take(i) == b.take(i),
    ensures
        lex_le(a, b) == lex_le(a.skip(i), b.skip(i)),
    decreases i,
{
    if i == 0 {
        assert(a.skip(0) =~= a);
        assert(b.skip(0) =~= b);
    } else {
        assert(a[0] == a.take(i)[0]);
        assert(b[0] == b.take(i)[0]);
        assert(a.drop_first().take(i - 1) =~= a.take(i).drop_first());
        assert(b.drop_first().take(i - 1) =~= b.take(i).drop_first());
        lemma_lex_le_skip(a.drop_first(), b.drop_first(), i - 1);
        assert(a.drop_first().skip(i - 1) =~= a.skip(i));
        assert(b.drop_first().skip(i - 1) =~= b.skip(i));
    }
}

/// Whether `a` comes before `b`, or equals it, in lexicographic order.
pub fn lex_le_exec(a: &str, b: &str) -> (r: bool)
    ensures
        r == lex_le(a@, b@),
{
    let n = a.unicode_len();
    let m = b.unicode_len();
    let mut i: usize = 0;
    proof {
        lemma_lex_le_skip(a@, b@, 0);
    }
    loop
        invariant
            n == a@.len(),
            m == b@.len(),
            i <= n,
            i <= m,
            a@.take(i as int) == b@.take(i as int),
        decreases n - i,
    {
        proof {
            lemma_lex_le_skip(a@, b@, i as int);
        }
        if i == n {
            return true;
        }
        if i == m {
            return false;
        }
        let ca = a.get_char(i);
        let cb = b.get_char(i);
        proof {
            assert(a@.skip(i as int)[0] == ca);
            assert(b@.skip(i as int)[0] == cb);
        }
        if ca != cb {
            return ca < cb;
        }
        assert(a@.take(i + 1) =~= a@.take(i as int).push(ca));
        assert(b@.take(i + 1) =~= b@.take(i as int).push(cb));
        i = i + 1;
    }
}

/// The text of a `server.properties` file for `props`: one `key=value` line
/// per property, the lines in ascending order, joined by `\n` and followed by
/// a final `\n`.
pub fn serialize_server_properties(props: &ServerProperties) -> (r: String)
    ensures
        exists|ks: Seq<Seq<char>>| is_listing(props@, ks) && r@ == serialized(props@, ks),
{
    proof {
        use_type_invariant(props);
        reveal_strlit("=");
        reveal_strlit("\n");
        assert("="@ =~= seq!['=']);
        assert("\n"@ =~= seq!['\n']);
    }
    let ghost m = props@;
    let ghost s = pair_views(props.entries@);
    let n = props.entries.len();
    let mut sorted_lines: Vec<String> = Vec::new();
    let ghost mut ks: Seq<Seq<char>> = seq![];
    let mut i: usize = 0;
    proof {
        assert(views(sorted_lines@) =~= lines_of(m, ks));
    }
    while i < n
        invariant
            n == s.len(),
            s == pair_views(props.entries@),
            keys_distinct(s),
            m == pairs_map(s),
            "="@ == seq!['='],
            i <= n,
            views(sorted_lines@) == lines_of(m, ks),
            sorted(views(sorted_lines@)),
            ks.no_duplicates(),
            forall|x: Seq<char>| ks.contains(x) <==> exists|j: int| 0 <= j < i && s[j].0 == x,
        decreases n - i,
    {
        let k = &props.entries[i].0;
        let v = &props.entries[i].1;
        let line = cat(cat(k.as_str(), "=").as_str(), v.as_str());
        proof {
            assert(s[i as int] == (k@, v@));
            lemma_pairs_map_value(s, i as int);
            assert(line@ == property_line(k@, m[k@]));
        }
        let len = sorted_lines.len();
        let mut p: usize = 0;
        while p < len && lex_le_exec(sorted_lines[p].as_str(), line.as_str())
            invariant
                len == sorted_lines@.len(),
                p <= len,
                forall|q: int| 0 <= q < p ==> lex_le(sorted_lines@[q]@, line@),
            decreases len - p,
        {
            p = p + 1;
        }
        let ghost old_lines = views(sorted_lines@);
        proof {
            if p < len {
                lemma_lex_le_total(old_lines[p as int], line@);
                assert forall|q: int| p <= q < len implies lex_le(line@, old_lines[q]) by {
                    if q > p {
                        lemma_lex_le_trans(line@, old_lines[p as int], old_lines[q]);
                    }
                }
            }
        }
        let ghost lv = line@;
        sorted_lines.insert(p, line);
        let ghost old_ks = ks;
        proof {
            ks = ks.insert(p as int, k@);
            assert(views(sorted_lines@) =~= old_lines.insert(p as int, lv));
            assert(lines_of(m, ks) =~= lines_of(m, old_ks).insert(p as int, lv));
            let nl = views(sorted_lines@);
            assert forall|a: int, b: int| 0 <= a < b < nl.len() implies lex_le(nl[a], nl[b]) by {
                if a < p && b == p {
                    assert(nl[a] == old_lines[a]);
                } else if a == p {
                    assert(nl[b] == old_lines[b - 1]);
                } else if a < p && b < p {
                    assert(nl[a] == old_lines[a]);
                    assert(nl[b] == old_lines[b]);
                } else if a < p {
                    assert(nl[a] == old_lines[a]);
                    assert(nl[b] == old_lines[b - 1]);
                } else {
                    assert(nl[a] == old_lines[a - 1]);
                    assert(nl[b] == old_lines[b - 1]);
                }
            }
            assert(!old_ks.contains(k@)) by {
                if old_ks.contains(k@) {
                    let j = choose|j: int| 0 <= j < i && s[j].0 == k@;
                    assert(s[j].0 == s[i as int].0);
                }
            }
            assert forall|a: int, b: int|
                0 <= a < ks.len() && 0 <= b < ks.len() && a != b implies ks[a] != ks[b] by {
                if a == p {
                    assert(old_ks.contains(ks[b]));
                } else if b == p {
                    assert(old_ks.contains(ks[a]));
                } else {
                    let a0 = if a < p { a } else { a - 1 };
                    let b0 = if b < p { b } else { b - 1 };
                    assert(ks[a] == old_ks[a0]);
                    assert(ks[b] == old_ks[b0]);
                }
            }
            assert forall|x: Seq<char>|
                ks.contains(x) <==> exists|j: int| 0 <= j < i + 1 && s[j].0 == x by {
                if ks.contains(x) {
                    let a = choose|a: int| 0 <= a < ks.len() && ks[a] == x;
                    if a != p {
                        let a0 = if a < p { a } else { a - 1 };
                        assert(old_ks[a0] == x);
                        assert(old_ks.contains(x));
                        let j = choose|j: int| 0 <= j < i && s[j].0 == x;
                        assert(0 <= j < i + 1 && s[j].0 == x);
                    } else {
                        assert(s[i as int].0 == x);
                    }
                }
                if exists|j: int| 0 <= j < i + 1 && s[j].0 == x {
                    let j = choose|j: int| 0 <= j < i + 1 && s[j].0 == x;
                    if j == i {
                        assert(ks[p as int] == x);
                    } else {
                        assert(old_ks.contains(x));
                        let a0 = choose|a0: int| 0 <= a0 < old_ks.len() && old_ks[a0] == x;
                        let a = if a0 < p { a0 } else { a0 + 1 };
                        assert(ks[a] == x);
                    }
                }
            }
        }
        i = i + 1;
    }
    proof {
        lemma_pairs_map_dom(s);
        assert(ks.to_set() =~= m.dom());
    }
    let ghost all = views(sorted_lines@);
    let total = sorted_lines.len();
    let mut out = String::new();
    let mut j: usize = 0;
    while j < total
        invariant
            total == sorted_lines@.len(),
            all == views(sorted_lines@),
            "\n"@ == seq!['\n'],
            j <= total,
            out@ == join_lines(all.take(j as int)),
        decreases total - j,
    {
        proof {
            assert(all.take(j + 1).drop_last() =~= all.take(j as int));
            assert(all.take(j + 1).last() == all[j as int]);
        }
        let ghost before = out@;
        if j > 0 {
            out.append("\n");
        }
        out.append(sorted_lines[j].as_str());
        proof {
            if j > 0 {
                assert(out@ == before + seq!['\n'] + all[j as int]);
            }
        }
        proof {
            if j == 0 {
                assert(all.take(1) =~= seq![all[0]]);
            }
        }
        j = j + 1;
    }
    assert(all.take(total as int) =~= all);
    out.append("\n");
    assert(is_listing(m, ks) && out@ == serialized(m, ks));
    out
}

} // verus!

verus! {

/// A property that a write and a read give back unchanged: neither key nor
/// value has whitespace at its ends or a line break, and the key has no `=`
/// and does not start with `#`.
pub open spec fn clean_property(k: Seq<char>, v: Seq<char>) -> bool {
    &&& trim(k) == k
    &&& trim(v) == v
    &&& !has_char(k, '=')
    &&& !has_char(k, '\n')
    &&& !has_char(v, '\n')
    &&& !(k.len() > 0 && k[0] == '#')
}

proof fn lemma_parse_clean_line(k: Seq<char>, v: Seq<char>)
    requires
        clean_property(k, v),
    ensures
        parse_line(property_line(k, v)) == Some((k, v)),
        !has_char(property_line(k, v), '\n'),
        strip_cr(property_line(k, v)) == property_line(k, v),
{
    let line = property_line(k, v);
    let n = line.len();
    assert(line[k.len() as int] == '=');
    if k.len() > 0 {
        lemma_trimmed_ends(k);
        assert(line[0] == k[0]);
    }
    if v.len() > 0 {
        lemma_trimmed_ends(v);
        assert(line[n - 1] == v.last());
    }
    lemma_trim_start_skip(line, 0);
    assert(line.skip(0) =~= line);
    lemma_trim_end_take(line, n as int);
    assert(line.take(n as int) =~= line);
    assert(trim(line) == line);
    assert forall|q: int| 0 <= q < k.len() implies line[q] != '=' by {
        assert(line[q] == k[q]);
    }
    lemma_char_pos(line, '=', k.len() as int);
    assert(line.take(k.len() as int) =~= k);
    assert(line.skip(k.len() as int + 1) =~= v);
    assert(!has_char(line, '\n')) by {
        if has_char(line, '\n') {
            let q = choose|q: int| 0 <= q < line.len() && line[q] == '\n';
            if q < k.len() {
                assert(line[q] == k[q]);
            } else if q > k.len() {
                assert(line[q] == v[q - k.len() - 1]);
            }
        }
    }
}

proof fn lemma_join_front(ls: Seq<Seq<char>>)
    requires
        ls.len() >= 2,
    ensures
        join_lines(ls) == ls[0] + seq!['\n'] + join_lines(ls.drop_first()),
    decreases ls.len(),
{
    let d = ls.drop_last();
    if ls.len() == 2 {
        assert(d.len() == 1);
        assert(ls.drop_first().len() == 1);
        assert(join_lines(d) == d[0]);
        assert(join_lines(ls.drop_first()) == ls.drop_first()[0]);
        assert(join_lines(ls) =~= ls[0] + seq!['\n'] + join_lines(ls.drop_first()));
    } else {
        lemma_join_front(d);
        assert(d.drop_first() =~= ls.drop_first().drop_last());
        assert(ls.drop_first().last() == ls.last());
        assert(join_lines(ls) =~= ls[0] + seq!['\n'] + join_lines(ls.drop_first()));
    }
}

proof fn lemma_lines_of_joined(ls: Seq<Seq<char>>)
    requires
        ls.len() >= 1,
        forall|i: int| 0 <= i < ls.len() ==> !has_char(#[trigger] ls[i], '\n'),
        forall|i: int| 0 <= i < ls.len() ==> strip_cr(#[trigger] ls[i]) == ls[i],
    ensures
        lines(join_lines(ls) + seq!['\n']) == ls,
    decreases ls.len(),
{
    let e: Seq<char> = seq![];
    if ls.len() == 1 {
        lemma_lines_prefix(ls[0], e);
        assert(ls[0] + seq!['\n'] + e =~= join_lines(ls) + seq!['\n']);
        assert(lines(e) =~= seq![]);
        assert(seq![ls[0]] + lines(e) =~= ls);
    } else {
        let r = ls.drop_first();
        lemma_join_front(ls);
        lemma_lines_of_joined(r);
        lemma_lines_prefix(ls[0], join_lines(r) + seq!['\n']);
        assert(join_lines(ls) + seq!['\n'] =~= ls[0] + seq!['\n'] + (join_lines(r) + seq!['\n']));
        assert(seq![ls[0]] + r =~= ls);
    }
}

proof fn lemma_parse_lines_of(m: Map<Seq<char>, Seq<char>>, ks: Seq<Seq<char>>)
    requires
        ks.no_duplicates(),
        forall|i: int| 0 <= i < ks.len() ==> m.dom().contains(#[trigger] ks[i]),
        forall|k: Seq<char>| m.dom().contains(k) ==> clean_property(k, m[k]),
    ensures
        parse_properties(lines_of(m, ks)) == m.restrict(ks.to_set()),
    decreases ks.len(),
{
    if ks.len() == 0 {
        assert(m.restrict(ks.to_set()) =~= Map::empty());
    } else {
        let d = ks.drop_last();
        let last = ks.last();
        assert(m.dom().contains(ks[ks.len() - 1]));
        lemma_parse_lines_of(m, d);
        assert(lines_of(m, ks).drop_last() =~= lines_of(m, d));
        lemma_parse_clean_line(last, m[last]);
        assert(ks.to_set() =~= d.to_set().insert(last)) by {
            assert forall|x: Seq<char>| ks.to_set().contains(x) <==> d.to_set().insert(last).contains(x) by {
                if ks.contains(x) {
                    let a = choose|a: int| 0 <= a < ks.len() && ks[a] == x;
                    if a < ks.len() - 1 {
                        assert(d[a] == x);
                    }
                }
                if d.contains(x) {
                    let a = choose|a: int| 0 <= a < d.len() && d[a] == x;
                    assert(ks[a] == x);
                }
                if x == last {
                    assert(ks[ks.len() - 1] == x);
                }
            }
        }
        assert(m.restrict(ks.to_set()) =~= m.restrict(d.to_set()).insert(last, m[last]));
    }
}

/// Reading back what `serialize_server_properties` wrote gives the same
/// properties, whenever each key and value is clean (see `clean_property`).
pub proof fn law_load_after_serialize(m: Map<Seq<char>, Seq<char>>, ks: Seq<Seq<char>>)
    requires
        is_listing(m, ks),
        forall|k: Seq<char>| m.dom().contains(k) ==> clean_property(k, m[k]),
    ensures
        parse_properties(lines(serialized(m, ks))) == m,
{
    assert forall|i: int| 0 <= i < ks.len() implies m.dom().contains(#[trigger] ks[i]) by {
        assert(ks.to_set().contains(ks[i]));
    }
    lemma_parse_lines_of(m, ks);
    assert(m.restrict(m.dom()) =~= m);
    let ls = lines_of(m, ks);
    if ks.len() == 0 {
        let e: Seq<char> = seq![];
        lemma_lines_prefix(e, e);
        assert(serialized(m, ks) =~= e + seq!['\n'] + e);
        assert(lines(e) =~= seq![]);
        assert(lines(serialized(m, ks)) =~= seq![e]);
        assert(seq![e].drop_last() =~= seq![]);
        assert(trim(e) =~= e);
        assert(m.dom() =~= Set::empty());
        assert(m =~= Map::empty());
        assert(parse_line(e) is None);
        assert(parse_properties(seq![e]) == parse_properties(seq![e].drop_last()));
        assert(parse_properties(lines(serialized(m, ks))) == m);
    } else {
        assert forall|i: int| 0 <= i < ls.len() implies !has_char(#[trigger] ls[i], '\n') && strip_cr(
            ls[i],
        ) == ls[i] by {
            lemma_parse_clean_line(ks[i], m[ks[i]]);
        }
        lemma_lines_of_joined(ls);
        assert(lines(serialized(m, ks)) == ls);
        assert(parse_properties(ls) == m);
    }
}

} // verus!

verus! {

/// The properties that a new server starts with.
pub open spec fn default_properties_spec() -> Map<Seq<char>, Seq<char>> {
    map![
        "server-port"@ => "25565"@,
        "max-players"@ => "20"@,
        "online-mode"@ => "true"@,
        "pvp"@ => "true"@,
        "difficulty"@ => "normal"@,
        "gamemode"@ => "survival"@,
        "level-name"@ => "world"@,
        "motd"@ => "A Minecraft Server"@,
        "view-distance"@ => "10"@,
        "spawn-protection"@ => "16"@,
    ]
}

/// The properties that a new server starts with: port 25565, 20 players,
/// online mode, PvP, normal difficulty, survival mode, the level `world`,
/// a plain message of the day, view distance 10 and spawn protection 16.
pub fn default_properties() -> (r: ServerProperties)
    ensures
        r@ == default_properties_spec(),
{
    let mut p = ServerProperties::new();
    p.insert(String::from_str("server-port"), String::from_str("25565"));
    p.insert(String::from_str("max-players"), String::from_str("20"));
    p.insert(String::from_str("online-mode"), String::from_str("true"));
    p.insert(String::from_str("pvp"), String::from_str("true"));
    p.insert(String::from_str("difficulty"), String::from_str("normal"));
    p.insert(String::from_str("gamemode"), String::from_str("survival"));
    p.insert(String::from_str("level-name"), String::from_str("world"));
    p.insert(String::from_str("motd"), String::from_str("A Minecraft Server"));
    p.insert(String::from_str("view-distance"), String::from_str("10"));
    p.insert(String::from_str("spawn-protection"), String::from_str("16"));
    assert(p@ =~= default_properties_spec());
    p
}

/// Why reading or writing `server.properties` failed.
pub enum SettingsError {
    /// The file is not there.
    NotFound,
    /// Reading failed; the remote error output.
    ReadFailed(String),
    /// Writing failed; the remote error output.
    WriteFailed(String),
}

/// The text of a settings error.
pub open spec fn settings_error_text(e: SettingsError) -> Seq<char> {
    match e {
        SettingsError::NotFound => "server.properties not found"@,
        SettingsError::ReadFailed(s) => "Failed to read server.properties: "@ + s@,
        SettingsError::WriteFailed(s) => "Failed to write server.properties: "@ + s@,
    }
}

impl SettingsError {
    /// The text of the error, as it is shown to the user.
    pub fn message(&self) -> (r: String)
        ensures
            r@ == settings_error_text(*self),
    {
        match self {
            SettingsError::NotFound => String::from_str("server.properties not found"),
            SettingsError::ReadFailed(s) => cat("Failed to read server.properties: ", s.as_str()),
            SettingsError::WriteFailed(s) => cat("Failed to write server.properties: ", s.as_str()),
        }
    }
}

/// The path of `server.properties` in a server directory.
pub open spec fn properties_path_spec(server_dir: Seq<char>) -> Seq<char> {
    server_dir + "/server.properties"@
}

/// The path of `server.properties` in `server_dir`.
pub fn properties_path(server_dir: &str) -> (r: String)
    ensures
        r@ == properties_path_spec(server_dir@),
{
    cat(server_dir, "/server.properties")
}

/// The shell command that prints `server.properties` of `server_dir`.
pub fn read_properties_command(server_dir: &str) -> (r: String)
    ensures
        r@ == "cat '"@ + properties_path_spec(server_dir@) + "'"@,
{
    let path = properties_path(server_dir);
    cat(cat("cat '", path.as_str()).as_str(), "'")
}

/// What the output of the read command means: on exit code 0 the
/// properties in its standard output; otherwise `NotFound` when the error
/// output says `No such file` or the standard output is empty, and
/// `ReadFailed` with the error output when not.
pub fn read_outcome(out: &str, stderr: &str, code: u32) -> (r: Result<ServerProperties, SettingsError>)
    ensures
        code == 0 ==> (r matches Ok(p) && p@ == parse_properties(lines(out@))),
        code != 0 && (contains_seq(stderr@, "No such file"@) || out@.len() == 0) ==> r matches Err(
            SettingsError::NotFound,
        ),
        code != 0 && !(contains_seq(stderr@, "No such file"@) || out@.len() == 0) ==> (r matches Err(
            SettingsError::ReadFailed(s),
        ) && s@ == stderr@),
{
    if code != 0 {
        if contains_str(stderr, "No such file") || out.unicode_len() == 0 {
            return Err(SettingsError::NotFound);
        }
        return Err(SettingsError::ReadFailed(String::from_str(stderr)));
    }
    Ok(load_server_properties_str(out))
}

/// `s` made safe to stand between single quotes in a shell command: each `'`
/// becomes `'\''`.
pub open spec fn quote_escape(s: Seq<char>) -> Seq<char> {
    replace_char(s, '\'', seq!['\'', '\\', '\'', '\''])
}

/// Escapes each `'` of `s` as `'\''`.
pub fn escape_single_quotes(s: &str) -> (r: String)
    ensures
        r@ == quote_escape(s@),
{
    proof {
        reveal_strlit("'\\''");
        assert("'\\''"@ =~= seq!['\'', '\\', '\'', '\'']);
    }
    replace_char_str(s, '\'', "'\\''")
}

/// The text of the properties file as it is written: each `\` doubled, then
/// each `'` escaped.
pub open spec fn escaped_content(content: Seq<char>) -> Seq<char> {
    quote_escape(replace_char(content, '\\', seq!['\\', '\\']))
}

/// The shell command that writes the properties file text `content` (in the
/// key order that it was serialised in) to `server.properties` of
/// `server_dir`.
pub open spec fn write_command_spec(server_dir: Seq<char>, content: Seq<char>) -> Seq<char> {
    "printf '%s' '"@ + escaped_content(content) + "' > '"@ + properties_path_spec(server_dir) + "'"@
}

/// The shell command that writes `props` to `server.properties` of
/// `server_dir`.
pub fn write_properties_command(server_dir: &str, props: &ServerProperties) -> (r: String)
    ensures
        exists|ks: Seq<Seq<char>>|
            is_listing(props@, ks) && r@ == write_command_spec(server_dir@, serialized(props@, ks)),
{
    let content = serialize_server_properties(props);
    let ghost ks = choose|ks: Seq<Seq<char>>|
        is_listing(props@, ks) && content@ == serialized(props@, ks);
    proof {
        reveal_strlit("\\\\");
        assert("\\\\"@ =~= seq!['\\', '\\']);
    }
    let doubled = replace_char_str(content.as_str(), '\\', "\\\\");
    let escaped = escape_single_quotes(doubled.as_str());
    let path = properties_path(server_dir);
    let a = cat("printf '%s' '", escaped.as_str());
    let b = cat(a.as_str(), "' > '");
    let c = cat(b.as_str(), path.as_str());
    let r = cat(c.as_str(), "'");
    assert(r@ == write_command_spec(server_dir@, serialized(props@, ks)));
    r
}

/// What the exit of the write command means: success on code 0, otherwise
/// `WriteFailed` with the error output.
pub fn write_outcome(stderr: &str, code: u32) -> (r: Result<(), SettingsError>)
    ensures
        code == 0 ==> r is Ok,
        code != 0 ==> (r matches Err(SettingsError::WriteFailed(s)) && s@ == stderr@),
{
    if code != 0 {
        return Err(SettingsError::WriteFailed(String::from_str(stderr)));
    }
    Ok(())
}

} // verus!

verus! {

proof fn lemma_parsed_line_clean(l: Seq<char>)
    requires
        !has_char(l, '\n'),
        parse_line(l) is Some,
    ensures
        match parse_line(l) {
            Some(kv) => clean_property(kv.0, kv.1),
            None => true,
        },
{
    let t = trim(l);
    let i = char_pos(t, '=');
    lemma_char_pos_bound(t, '=');
    lemma_trim_shape(l);
    lemma_trim_has_char(l, '\n');
    let a = t.take(i as int);
    let b = t.skip(i as int + 1);
    let k = trim(a);
    let v = trim(b);
    lemma_trim_idem(a);
    lemma_trim_idem(b);
    lemma_trim_has_char(a, '=');
    lemma_trim_has_char(a, '\n');
    lemma_trim_has_char(b, '\n');
    assert(!has_char(a, '=')) by {
        if has_char(a, '=') {
            let q = choose|q: int| 0 <= q < a.len() && a[q] == '=';
            assert(t[q] == '=');
        }
    }
    assert(!has_char(a, '\n')) by {
        if has_char(a, '\n') {
            let q = choose|q: int| 0 <= q < a.len() && a[q] == '\n';
            assert(t[q] == '\n');
        }
    }
    assert(!has_char(b, '\n')) by {
        if has_char(b, '\n') {
            let q = choose|q: int| 0 <= q < b.len() && b[q] == '\n';
            assert(t[q + i + 1] == '\n');
        }
    }
    if k.len() > 0 {
        assert(a.len() > 0);
        assert(a[0] == t[0]);
        lemma_trim_start_skip(a, 0);
        assert(a.skip(0) =~= a);
        lemma_trim_end_shape(a);
        assert(k[0] == a[0]);
    }
}

proof fn lemma_parsed_clean(ls: Seq<Seq<char>>)
    requires
        forall|i: int| 0 <= i < ls.len() ==> !has_char(#[trigger] ls[i], '\n'),
    ensures
        forall|k: Seq<char>|
            parse_properties(ls).dom().contains(k) ==> clean_property(k, parse_properties(ls)[k]),
    decreases ls.len(),
{
    if ls.len() > 0 {
        let d = ls.drop_last();
        assert forall|i: int| 0 <= i < d.len() implies !has_char(#[trigger] d[i], '\n') by {
            assert(d[i] == ls[i]);
        }
        lemma_parsed_clean(d);
        assert(ls[ls.len() - 1] == ls.last());
        let m = parse_properties(d);
        match parse_line(ls.last()) {
            Some(kv) => {
                lemma_parsed_line_clean(ls.last());
                assert(parse_properties(ls) == m.insert(kv.0, kv.1));
                assert forall|k: Seq<char>| parse_properties(ls).dom().contains(k) implies clean_property(
                    k,
                    parse_properties(ls)[k],
                ) by {
                    if k != kv.0 {
                        assert(m.dom().contains(k));
                    }
                }
            },
            None => {
                assert(parse_properties(ls) == m);
            },
        }
    }
}

/// Every property that is read from a text is clean, so that writing what
/// was read and reading it again gives the same properties.
pub proof fn law_loaded_properties_are_clean(content: Seq<char>)
    ensures
        forall|k: Seq<char>|
            parse_properties(lines(content)).dom().contains(k) ==> clean_property(
                k,
                parse_properties(lines(content))[k],
            ),
{
    lemma_lines_no_newline(content);
    lemma_parsed_clean(lines(content));
}

/// Writing the properties read from a text and reading the result gives the
/// properties that were read.
pub proof fn law_reload_after_save(content: Seq<char>, ks: Seq<Seq<char>>)
    requires
        is_listing(parse_properties(lines(content)), ks),
    ensures
        parse_properties(lines(serialized(parse_properties(lines(content)), ks))) == parse_properties(
            lines(content),
        ),
{
    law_loaded_properties_are_clean(content);
    law_load_after_serialize(parse_properties(lines(content)), ks);
}

} // verus!

verus! {

/// The text that the shell reads between single quotes where each `'` was
/// written as `'\''` (close the quote, a quoted `'`, open the quote again).
pub open spec fn unquote_escaped(t: Seq<char>) -> Seq<char>
    decreases t.len(),
{
    if t.len() == 0 {
        seq![]
    } else if t.len() >= 4 && t.take(4) == seq!['\'', '\\', '\'', '\''] {
        seq!['\''] + unquote_escaped(t.skip(4))
    } else {
        seq![t[0]] + unquote_escaped(t.skip(1))
    }
}

/// Between single quotes, an escaped text stands for the text it came from.
pub proof fn law_quote_escape_reverses(s: Seq<char>)
    ensures
        unquote_escaped(quote_escape(s)) == s,
    decreases s.len(),
{
    if s.len() > 0 {
        let pat = seq!['\'', '\\', '\'', '\''];
        let rest = quote_escape(s.drop_first());
        law_quote_escape_reverses(s.drop_first());
        let t = quote_escape(s);
        if s[0] == '\'' {
            assert(t == pat + rest);
            assert(t.take(4) =~= pat);
            assert(t.skip(4) =~= rest);
        } else {
            assert(t == seq![s[0]] + rest);
            assert(t[0] == s[0]);
            assert(t.skip(1) =~= rest);
        }
        assert(seq![s[0]] + s.drop_first() =~= s);
    }
}

} // verus!

verus! {

proof fn lemma_parse_concat(l1: Seq<Seq<char>>, l2: Seq<Seq<char>>)
    ensures
        parse_properties(l1 + l2) == parse_properties(l1).union_prefer_right(parse_properties(l2)),
    decreases l2.len(),
{
    if l2.len() == 0 {
        assert(l1 + l2 =~= l1);
        assert(parse_properties(l1).union_prefer_right(parse_properties(l2)) =~= parse_properties(l1));
    } else {
        let d = l2.drop_last();
        lemma_parse_concat(l1, d);
        assert((l1 + l2).drop_last() =~= l1 + d);
        assert((l1 + l2).last() == l2.last());
        let m1 = parse_properties(l1);
        let md = parse_properties(d);
        match parse_line(l2.last()) {
            Some(kv) => {
                assert(m1.union_prefer_right(md).insert(kv.0, kv.1) =~= m1.union_prefer_right(
                    md.insert(kv.0, kv.1),
                ));
            },
            None => {},
        }
    }
}

proof fn lemma_parse_single_strip_cr(x: Seq<char>)
    ensures
        parse_properties(seq![strip_cr(x)]) == parse_properties(seq![x]),
{
    lemma_trim_strip_cr(x);
    assert(seq![strip_cr(x)].drop_last() =~= Seq::<Seq<char>>::empty());
    assert(seq![x].drop_last() =~= Seq::<Seq<char>>::empty());
    assert(parse_line(strip_cr(x)) == parse_line(x));
}

/// Reading a text made of two texts joined by a line break gives the
/// properties of the first, overridden by those of the second.
pub proof fn law_load_joined(a: Seq<char>, b: Seq<char>)
    ensures
        parse_properties(lines(a + seq!['\n'] + b)) == parse_properties(lines(a)).union_prefer_right(
            parse_properties(lines(b)),
        ),
    decreases a.len(),
{
    let s = a + seq!['\n'] + b;
    lemma_char_pos_bound(a, '\n');
    let i = char_pos(a, '\n');
    let e: Seq<char> = seq![];
    if a.len() == 0 {
        lemma_lines_prefix(a, b);
        lemma_parse_concat(seq![strip_cr(a)], lines(b));
        assert(strip_cr(a) == e);
        assert(trim(e) =~= e);
        assert(parse_line(e) is None);
        assert(seq![e].drop_last() =~= Seq::<Seq<char>>::empty());
        assert(seq![e].last() == e);
        assert(parse_properties(Seq::<Seq<char>>::empty()) == Map::<Seq<char>, Seq<char>>::empty());
        assert(parse_properties(seq![e]) == Map::<Seq<char>, Seq<char>>::empty());
        assert(lines(a) =~= Seq::<Seq<char>>::empty());
        assert(Map::<Seq<char>, Seq<char>>::empty().union_prefer_right(parse_properties(lines(b)))
            =~= parse_properties(lines(b)));
    } else if i >= a.len() {
        assert(!has_char(a, '\n'));
        lemma_lines_prefix(a, b);
        lemma_parse_concat(seq![strip_cr(a)], lines(b));
        lemma_parse_single_strip_cr(a);
        assert(lines(a) == seq![a]);
    } else {
        let a2 = a.skip(i as int + 1);
        law_load_joined(a2, b);
        assert forall|k: int| 0 <= k < i implies s[k] != '\n' by {
            assert(s[k] == a[k]);
        }
        assert(s[i as int] == a[i as int]);
        lemma_char_pos(s, '\n', i as int);
        assert(s.take(i as int) =~= a.take(i as int));
        assert(s.skip(i as int + 1) =~= a2 + seq!['\n'] + b);
        let h = strip_cr(a.take(i as int));
        assert(lines(s) == seq![h] + lines(a2 + seq!['\n'] + b));
        assert(lines(a) == seq![h] + lines(a2));
        lemma_parse_concat(seq![h], lines(a2 + seq!['\n'] + b));
        lemma_parse_concat(seq![h], lines(a2));
        let ph = parse_properties(seq![h]);
        let pa = parse_properties(lines(a2));
        let pb = parse_properties(lines(b));
        assert(ph.union_prefer_right(pa.union_prefer_right(pb)) =~= ph.union_prefer_right(pa).union_prefer_right(pb));
    }
}

} // verus!

verus! {

/// How many times `x` occurs in `ls`.
pub open spec fn count_of(ls: Seq<Seq<char>>, x: Seq<char>) -> nat
    decreases ls.len(),
{
    if ls.len() == 0 {
        0
    } else {
        (if ls[0] == x {
            1nat
        } else {
            0nat
        }) + count_of(ls.drop_first(), x)
    }
}

proof fn lemma_lex_le_antisym(a: Seq<char>, b: Seq<char>)
    requires
        lex_le(a, b),
        lex_le(b, a),
    ensures
        a == b,
    decreases a.len(),
{
    if a.len() > 0 && b.len() > 0 {
        lemma_lex_le_antisym(a.drop_first(), b.drop_first());
        assert(a =~= seq![a[0]] + a.drop_first());
        assert(b =~= seq![b[0]] + b.drop_first());
    } else {
        assert(a =~= b);
    }
}

proof fn lemma_count_pos(ls: Seq<Seq<char>>, x: Seq<char>)
    requires
        count_of(ls, x) > 0,
    ensures
        exists|j: int| 0 <= j < ls.len() && ls[j] == x,
    decreases ls.len(),
{
    if ls[0] != x {
        lemma_count_pos(ls.drop_first(), x);
        let j = choose|j: int| 0 <= j < ls.drop_first().len() && ls.drop_first()[j] == x;
        assert(ls[j + 1] == x);
    }
}

proof fn lemma_count_remove(ls: Seq<Seq<char>>, j: int, x: Seq<char>)
    requires
        0 <= j < ls.len(),
    ensures
        count_of(ls, x) == count_of(ls.remove(j), x) + (if ls[j] == x {
            1nat
        } else {
            0nat
        }),
    decreases j,
{
    if j > 0 {
        lemma_count_remove(ls.drop_first(), j - 1, x);
        assert(ls.remove(j).drop_first() =~= ls.drop_first().remove(j - 1));
        assert(ls.remove(j)[0] == ls[0]);
    } else {
        assert(ls.remove(0) =~= ls.drop_first());
    }
}

/// Two sorted sequences with the same elements, counted with repetition,
/// are equal.
proof fn lemma_sorted_unique(s1: Seq<Seq<char>>, s2: Seq<Seq<char>>)
    requires
        sorted(s1),
        sorted(s2),
        forall|x: Seq<char>| count_of(s1, x) == count_of(s2, x),
    ensures
        s1 == s2,
    decreases s1.len(),
{
    if s1.len() == 0 {
        if s2.len() > 0 {
            assert(count_of(s2, s2[0]) > 0);
            assert(count_of(s1, s2[0]) == 0);
        }
        assert(s1 =~= s2);
    } else {
        assert(count_of(s1, s1[0]) > 0);
        lemma_count_pos(s2, s1[0]);
        let j = choose|j: int| 0 <= j < s2.len() && s2[j] == s1[0];
        assert(count_of(s2, s2[0]) > 0);
        lemma_count_pos(s1, s2[0]);
        let i = choose|i: int| 0 <= i < s1.len() && s1[i] == s2[0];
        if i != 0 && j != 0 {
            assert(lex_le(s1[0], s1[i]));
            assert(lex_le(s2[0], s2[j]));
            lemma_lex_le_antisym(s1[0], s2[0]);
        }
        let t1 = s1.drop_first();
        let t2 = s2.drop_first();
        assert forall|x: Seq<char>| count_of(t1, x) == count_of(t2, x) by {
            assert(count_of(s1, x) == count_of(s2, x));
        }
        assert(sorted(t1)) by {
            assert forall|a: int, b: int| 0 <= a < b < t1.len() implies lex_le(t1[a], t1[b]) by {
                assert(t1[a] == s1[a + 1] && t1[b] == s1[b + 1]);
            }
        }
        assert(sorted(t2)) by {
            assert forall|a: int, b: int| 0 <= a < b < t2.len() implies lex_le(t2[a], t2[b]) by {
                assert(t2[a] == s2[a + 1] && t2[b] == s2[b + 1]);
            }
        }
        lemma_sorted_unique(t1, t2);
        assert(s1 =~= seq![s1[0]] + t1);
        assert(s2 =~= seq![s2[0]] + t2);
    }
}

/// Listing the same keys in two orders gives the same lines, counted with
/// repetition.
proof fn lemma_listing_counts(m: Map<Seq<char>, Seq<char>>, ks1: Seq<Seq<char>>, ks2: Seq<Seq<char>>)
    requires
        ks1.no_duplicates(),
        ks2.no_duplicates(),
        forall|y: Seq<char>| ks1.contains(y) <==> ks2.contains(y),
    ensures
        forall|x: Seq<char>| count_of(lines_of(m, ks1), x) == count_of(lines_of(m, ks2), x),
    decreases ks1.len(),
{
    if ks1.len() == 0 {
        if ks2.len() > 0 {
            assert(ks2.contains(ks2[0]));
        }
        assert(lines_of(m, ks1) =~= lines_of(m, ks2));
    } else {
        let k = ks1[0];
        assert(ks1.contains(k));
        let j = choose|j: int| 0 <= j < ks2.len() && ks2[j] == k;
        let r1 = ks1.drop_first();
        let r2 = ks2.remove(j);
        assert forall|y: Seq<char>| r1.contains(y) <==> r2.contains(y) by {
            if r1.contains(y) {
                let a = choose|a: int| 0 <= a < r1.len() && r1[a] == y;
                assert(ks1[a + 1] == y);
                assert(ks1.contains(y));
                let q = choose|q: int| 0 <= q < ks2.len() && ks2[q] == y;
                assert(q != j);
                if q < j {
                    assert(r2[q] == y);
                } else {
                    assert(r2[q - 1] == y);
                }
            }
            if r2.contains(y) {
                let a = choose|a: int| 0 <= a < r2.len() && r2[a] == y;
                let q = if a < j { a } else { a + 1 };
                assert(ks2[q] == y);
                assert(ks2.contains(y));
                let p = choose|p: int| 0 <= p < ks1.len() && ks1[p] == y;
                assert(p != 0);
                assert(r1[p - 1] == y);
            }
        }
        assert(r1.no_duplicates());
        assert(r2.no_duplicates()) by {
            assert forall|a: int, b: int| 0 <= a < r2.len() && 0 <= b < r2.len() && a != b implies r2[a]
                != r2[b] by {
                let qa = if a < j { a } else { a + 1 };
                let qb = if b < j { b } else { b + 1 };
                assert(r2[a] == ks2[qa] && r2[b] == ks2[qb]);
            }
        }
        lemma_listing_counts(m, r1, r2);
        assert(lines_of(m, r1) =~= lines_of(m, ks1).drop_first());
        assert(lines_of(m, r2) =~= lines_of(m, ks2).remove(j));
        assert forall|x: Seq<char>| count_of(lines_of(m, ks1), x) == count_of(lines_of(m, ks2), x) by {
            lemma_count_remove(lines_of(m, ks2), j, x);
            assert(count_of(lines_of(m, r1), x) == count_of(lines_of(m, r2), x));
        }
    }
}

/// The text written for a set of properties depends on the properties alone,
/// not on the order in which they were stored.
pub proof fn law_serialized_depends_on_map_alone(
    m: Map<Seq<char>, Seq<char>>,
    ks1: Seq<Seq<char>>,
    ks2: Seq<Seq<char>>,
)
    requires
        is_listing(m, ks1),
        is_listing(m, ks2),
    ensures
        serialized(m, ks1) == serialized(m, ks2),
{
    assert forall|y: Seq<char>| ks1.contains(y) <==> ks2.contains(y) by {
        assert(ks1.to_set().contains(y) == ks2.to_set().contains(y));
    }
    lemma_listing_counts(m, ks1, ks2);
    lemma_sorted_unique(lines_of(m, ks1), lines_of(m, ks2));
}

} // verus!

verus! {

/// What the write command stores in the file for the text `content`: the
/// shell reads the single-quoted argument with each `'\''` as `'`, and
/// `printf '%s'` writes that argument unchanged.
pub open spec fn stored_text(content: Seq<char>) -> Seq<char> {
    unquote_escaped(escaped_content(content))
}

/// The file that the write command stores holds the text with each `\`
/// doubled.
pub proof fn law_stored_text(content: Seq<char>)
    ensures
        stored_text(content) == replace_char(content, '\\', seq!['\\', '\\']),
{
    law_quote_escape_reverses(replace_char(content, '\\', seq!['\\', '\\']));
}

proof fn lemma_join_absent(ls: Seq<Seq<char>>, c: char)
    requires
        c != '\n',
        forall|i: int| 0 <= i < ls.len() ==> !has_char(#[trigger] ls[i], c),
    ensures
        !has_char(join_lines(ls), c),
    decreases ls.len(),
{
    if ls.len() == 1 {
        assert(!has_char(ls[0], c));
    } else if ls.len() > 1 {
        let d = ls.drop_last();
        assert forall|i: int| 0 <= i < d.len() implies !has_char(#[trigger] d[i], c) by {
            assert(d[i] == ls[i]);
        }
        lemma_join_absent(d, c);
        assert(!has_char(ls[ls.len() - 1], c));
        lemma_has_char_concat(join_lines(d), seq!['\n'], c);
        lemma_has_char_concat(join_lines(d) + seq!['\n'], ls.last(), c);
        assert(!has_char(seq!['\n'], c)) by {
            if has_char(seq!['\n'], c) {
                let k = choose|k: int| 0 <= k < 1 && seq!['\n'][k] == c;
            }
        }
    } else {
        assert(!has_char(join_lines(ls), c));
    }
}

/// Settings that are saved and then read back give the same properties,
/// whenever each key and value is clean and holds no `\` (the write command
/// doubles each `\`).
pub proof fn law_saved_settings_read_back(m: Map<Seq<char>, Seq<char>>, ks: Seq<Seq<char>>)
    requires
        is_listing(m, ks),
        forall|k: Seq<char>| m.dom().contains(k) ==> clean_property(k, m[k]),
        forall|k: Seq<char>| m.dom().contains(k) ==> !has_char(k, '\\') && !has_char(m[k], '\\'),
    ensures
        parse_properties(lines(stored_text(serialized(m, ks)))) == m,
{
    let ls = lines_of(m, ks);
    assert forall|i: int| 0 <= i < ls.len() implies !has_char(#[trigger] ls[i], '\\') by {
        let k = ks[i];
        assert(ks.to_set().contains(k));
        lemma_has_char_concat(k, seq!['='], '\\');
        lemma_has_char_concat(k + seq!['='], m[k], '\\');
        assert(!has_char(seq!['='], '\\')) by {
            if has_char(seq!['='], '\\') {
                let q = choose|q: int| 0 <= q < 1 && seq!['='][q] == '\\';
            }
        }
    }
    lemma_join_absent(ls, '\\');
    lemma_has_char_concat(join_lines(ls), seq!['\n'], '\\');
    assert(!has_char(seq!['\n'], '\\')) by {
        if has_char(seq!['\n'], '\\') {
            let q = choose|q: int| 0 <= q < 1 && seq!['\n'][q] == '\\';
        }
    }
    law_stored_text(serialized(m, ks));
    lemma_replace_absent(serialized(m, ks), '\\', seq!['\\', '\\']);
    law_load_after_serialize(m, ks);
}

} // verus!

verus! {

/// A blank line, or one whose first non-blank character is `#`, adds no
/// property: appending it to a text leaves what is read unchanged.
pub proof fn law_comment_and_blank_lines_ignored(ls: Seq<Seq<char>>, l: Seq<char>)
    requires
        trim(l).len() == 0 || trim(l)[0] == '#',
    ensures
        parse_line(l) is None,
        parse_properties(ls.push(l)) == parse_properties(ls),
{
    assert(ls.push(l).drop_last() =~= ls);
    assert(ls.push(l).last() == l);
}

/// Reading a text followed by a line break and a comment or blank line gives
/// what the text alone gives.
pub proof fn law_load_ignores_appended_comment(a: Seq<char>, l: Seq<char>)
    requires
        !has_char(l, '\n'),
        trim(l).len() == 0 || trim(l)[0] == '#',
    ensures
        parse_properties(lines(a + seq!['\n'] + l)) == parse_properties(lines(a)),
{
    law_load_joined(a, l);
    let e: Seq<Seq<char>> = seq![];
    if l.len() == 0 {
        assert(lines(l) =~= e);
    } else {
        lemma_char_pos(l, '\n', l.len() as int);
        assert(lines(l) == seq![l]);
    }
    law_comment_and_blank_lines_ignored(e, l);
    assert(e.push(l) =~= seq![l]);
    assert(parse_properties(lines(l)) =~= Map::<Seq<char>, Seq<char>>::empty());
    assert(parse_properties(lines(a)).union_prefer_right(Map::<Seq<char>, Seq<char>>::empty())
        =~= parse_properties(lines(a)));
}

/// A line `key=value` of a clean property sets that key to that value,
/// replacing what earlier lines set.
pub proof fn law_key_value_line_sets_property(ls: Seq<Seq<char>>, k: Seq<char>, v: Seq<char>)
    requires
        clean_property(k, v),
    ensures
        parse_properties(ls.push(k + seq!['='] + v)) == parse_properties(ls).insert(k, v),
{
    lemma_parse_clean_line(k, v);
    assert(ls.push(k + seq!['='] + v).drop_last() =~= ls);
}

/// Whether each `'` of `q` stands in a `'\''` group, so that `q` stays one
/// argument between single quotes.
pub open spec fn quote_safe(q: Seq<char>) -> bool
    decreases q.len(),
{
    if q.len() == 0 {
        true
    } else if q.len() >= 4 && q.take(4) == seq!['\'', '\\', '\'', '\''] {
        quote_safe(q.skip(4))
    } else {
        q[0] != '\'' && quote_safe(q.skip(1))
    }
}

proof fn lemma_quote_escape_safe(s: Seq<char>)
    ensures
        quote_safe(quote_escape(s)),
    decreases s.len(),
{
    if s.len() > 0 {
        let pat = seq!['\'', '\\', '\'', '\''];
        let rest = quote_escape(s.drop_first());
        lemma_quote_escape_safe(s.drop_first());
        let t = quote_escape(s);
        if s[0] == '\'' {
            assert(t == pat + rest);
            assert(t.take(4) =~= pat);
            assert(t.skip(4) =~= rest);
        } else {
            assert(t == seq![s[0]] + rest);
            assert(t[0] == s[0]);
            assert(t.skip(1) =~= rest);
        }
    }
}

/// The write command is `printf '%s'` with one single-quoted argument that
/// the shell reads as the text to save with each `\` doubled, redirected to
/// `server.properties` of the server directory.
pub proof fn law_write_command_stores_text(server_dir: Seq<char>, content: Seq<char>)
    ensures
        exists|q: Seq<char>|
            write_command_spec(server_dir, content) == "printf '%s' '"@ + q + "' > '"@
                + properties_path_spec(server_dir) + "'"@ && quote_safe(q) && unquote_escaped(q)
                == replace_char(content, '\\', seq!['\\', '\\']),
{
    let q = escaped_content(content);
    lemma_quote_escape_safe(replace_char(content, '\\', seq!['\\', '\\']));
    law_quote_escape_reverses(replace_char(content, '\\', seq!['\\', '\\']));
    assert(write_command_spec(server_dir, content) == "printf '%s' '"@ + q + "' > '"@
        + properties_path_spec(server_dir) + "'"@);
}

} // verus!
