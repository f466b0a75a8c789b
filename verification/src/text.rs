use vstd::prelude::*;

verus! {

// ---------------------------------------------------------------------------
// Character-level helpers shared by the parsers and renderers.
// ---------------------------------------------------------------------------

/// ASCII lowercase of one character: 'A'..'Z' map to 'a'..'z', everything
/// else is unchanged.
pub open spec fn lower_char(c: char) -> char {
    if 65 <= c as u32 && c as u32 <= 90 {
        (((c as u32) + 32) as u8) as char
    } else {
        c
    }
}

/// ASCII lowercase of a character sequence.
pub open spec fn lower_seq(s: Seq<char>) -> Seq<char> {
    s.map_values(|c: char| lower_char(c))
}

/// Relies on str::to_ascii_lowercase: ASCII uppercase letters are mapped to
/// their lowercase counterparts and every other character is unchanged.
#[verifier::external_body]
pub fn lower_str(s: &str) -> (r: String)
    ensures
        r@ == lower_seq(s@),
{
    s.to_ascii_lowercase()
}

/// Character-wise string equality, decided executably.
pub fn str_eq(a: &str, b: &str) -> (r: bool)
    ensures
        r == (a@ == b@),
{
    let na = a.unicode_len();
    let nb = b.unicode_len();
    if na != nb {
        return false;
    }
    let mut i: usize = 0;
    while i < na
        invariant
            i <= na,
            na == a@.len(),
            na == b@.len(),
            forall|k: int| 0 <= k < i ==> a@[k] == b@[k],
        decreases na - i,
    {
        if a.get_char(i) != b.get_char(i) {
            return false;
        }
        i = i + 1;
    }
    proof {
        assert(a@ =~= b@);
    }
    true
}

/// Index of the first occurrence of `c` in `s` at or after `from`;
/// `s.len()` when there is none.
pub open spec fn find_from(s: Seq<char>, c: char, from: int) -> int
    decreases s.len() - from,
{
    if from < 0 || from >= s.len() {
        s.len() as int
    } else if s[from] == c {
        from
    } else {
        find_from(s, c, from + 1)
    }
}

pub proof fn lemma_find_from_props(s: Seq<char>, c: char, from: int)
    requires
        0 <= from <= s.len(),
    ensures
        from <= find_from(s, c, from) <= s.len(),
        find_from(s, c, from) < s.len() ==> s[find_from(s, c, from)] == c,
        forall|k: int| from <= k < find_from(s, c, from) ==> s[k] != c,
    decreases s.len() - from,
{
    if from < s.len() && s[from] != c {
        lemma_find_from_props(s, c, from + 1);
    }
}

pub proof fn lemma_find_from_found(s: Seq<char>, c: char, from: int, i: int)
    requires
        0 <= from <= i < s.len(),
        s[i] == c,
        forall|k: int| from <= k < i ==> s[k] != c,
    ensures
        find_from(s, c, from) == i,
    decreases i - from,
{
    if from < i {
        lemma_find_from_found(s, c, from + 1, i);
    }
}

pub proof fn lemma_find_from_none(s: Seq<char>, c: char, from: int)
    requires
        0 <= from <= s.len(),
        forall|k: int| from <= k < s.len() ==> s[k] != c,
    ensures
        find_from(s, c, from) == s.len(),
    decreases s.len() - from,
{
    if from < s.len() {
        lemma_find_from_none(s, c, from + 1);
    }
}

/// Executable counterpart of `find_from`.
pub fn find_char_from(s: &str, c: char, from: usize) -> (r: usize)
    requires
        from <= s@.len(),
    ensures
        r as int == find_from(s@, c, from as int),
        r <= s@.len(),
{
    let n = s.unicode_len();
    let mut i: usize = from;
    while i < n
        invariant
            from <= i <= n,
            n == s@.len(),
            find_from(s@, c, from as int) == find_from(s@, c, i as int),
        decreases n - i,
    {
        if s.get_char(i) == c {
            return i;
        }
        i = i + 1;
    }
    n
}

/// Number of occurrences of `c` in `s`.
pub open spec fn count_char(s: Seq<char>, c: char) -> nat
    decreases s.len(),
{
    if s.len() == 0 {
        0
    } else {
        (if s[0] == c {
            1nat
        } else {
            0nat
        }) + count_char(s.drop_first(), c)
    }
}

pub proof fn lemma_count_char_concat(a: Seq<char>, b: Seq<char>, c: char)
    ensures
        count_char(a + b, c) == count_char(a, c) + count_char(b, c),
    decreases a.len(),
{
    if a.len() == 0 {
        assert(a + b =~= b);
    } else {
        assert((a + b).drop_first() =~= a.drop_first() + b);
        lemma_count_char_concat(a.drop_first(), b, c);
    }
}

/// A sequence with no occurrence of `c`.
pub open spec fn free_of(s: Seq<char>, c: char) -> bool {
    forall|k: int| 0 <= k < s.len() ==> s[k] != c
}

pub proof fn lemma_count_char_zero(s: Seq<char>, c: char)
    requires
        free_of(s, c),
    ensures
        count_char(s, c) == 0,
    decreases s.len(),
{
    if s.len() > 0 {
        lemma_count_char_zero(s.drop_first(), c);
    }
}

// ---------------------------------------------------------------------------
// The tab-separated, newline-delimited key/value log format used by the
// persistent caches: one `key\tvalue\n` line per entry.
// ---------------------------------------------------------------------------

/// One rendered log line, including its terminating newline.
pub open spec fn render_entry(k: Seq<char>, v: Seq<char>) -> Seq<char> {
    k + seq!['\t'] + v + seq!['\n']
}

/// A whole log: the concatenation of its rendered entries.
pub open spec fn render_log(entries: Seq<(Seq<char>, Seq<char>)>) -> Seq<char>
    decreases entries.len(),
{
    if entries.len() == 0 {
        Seq::empty()
    } else {
        render_entry(entries[0].0, entries[0].1) + render_log(entries.drop_first())
    }
}

/// Parse one line of a two-field file: the first field runs to the first
/// separator, the second from there to the next separator or the end of the
/// line. A line without a separator is malformed.
pub open spec fn parse_line(line: Seq<char>, sep: char) -> Option<(Seq<char>, Seq<char>)> {
    let t = find_from(line, sep, 0);
    if t == line.len() {
        None
    } else {
        let t2 = find_from(line, sep, t + 1);
        Some((line.subrange(0, t), line.subrange(t + 1, t2)))
    }
}

/// Parse a whole log into its entries, in file order; `None` when some line
/// is malformed. A final line may lack its newline.
pub open spec fn parse_log(s: Seq<char>, sep: char) -> Option<Seq<(Seq<char>, Seq<char>)>>
    decreases s.len(),
    via parse_log_dec
{
    if s.len() == 0 {
        Some(Seq::empty())
    } else {
        let e = find_from(s, '\n', 0);
        let line = s.subrange(0, e);
        let rest = if e == s.len() as int {
            Seq::<char>::empty()
        } else {
            s.subrange(e + 1, s.len() as int)
        };
        match parse_line(line, sep) {
            Option::None => Option::None,
            Option::Some(kv) => match parse_log(rest, sep) {
                Option::None => Option::None,
                Option::Some(t) => Option::Some(seq![kv] + t),
            },
        }
    }
}

#[via_fn]
proof fn parse_log_dec(s: Seq<char>, sep: char) {
    if s.len() > 0 {
        lemma_find_from_props(s, '\n', 0);
    }
}

/// Executable log parser; its result matches `parse_log` exactly.
pub fn parse_log_entries(s: &str, sep: char) -> (r: Option<Vec<(String, String)>>)
    ensures
        match r {
            Option::Some(v) => parse_log(s@, sep) == Option::Some(
                v@.map_values(|p: (String, String)| (p.0@, p.1@)),
            ),
            Option::None => parse_log(s@, sep) is None,
        },
    decreases s@.len(),
{
    let n = s.unicode_len();
    if n == 0 {
        let v: Vec<(String, String)> = Vec::new();
        proof {
            assert(v@.map_values(|p: (String, String)| (p.0@, p.1@)) =~= Seq::<(
                Seq<char>,
                Seq<char>,
            )>::empty());
        }
        return Some(v);
    }
    proof {
        lemma_find_from_props(s@, '\n', 0);
    }
    let e = find_char_from(s, '\n', 0);
    let line = s.substring_char(0, e);
    match parse_line_fields(line, sep) {
        None => None,
        Some((k, v)) => {
            let rest = if e == n {
                s.substring_char(n, n)
            } else {
                s.substring_char(e + 1, n)
            };
            proof {
                if e == n {
                    assert(rest@ =~= Seq::<char>::empty());
                }
            }
            match parse_log_entries(rest, sep) {
                None => None,
                Some(mut t) => {
                    t.insert(0, (k, v));
                    proof {
                        assert(t@.map_values(|p: (String, String)| (p.0@, p.1@)) =~= seq![
                            (t@[0].0@, t@[0].1@),
                        ] + t@.drop_first().map_values(|p: (String, String)| (p.0@, p.1@)));
                    }
                    Some(t)
                },
            }
        },
    }
}

/// Executable line parser; its result matches `parse_line` exactly.
pub fn parse_line_fields(line: &str, sep: char) -> (r: Option<(String, String)>)
    ensures
        match r {
            Option::Some(kv) => parse_line(line@, sep) == Option::Some((kv.0@, kv.1@)),
            Option::None => parse_line(line@, sep) is None,
        },
{
    let n = line.unicode_len();
    let t = find_char_from(line, sep, 0);
    if t == n {
        return None;
    }
    proof {
        lemma_find_from_props(line@, sep, 0);
    }
    let t2 = find_char_from(line, sep, t + 1);
    proof {
        lemma_find_from_props(line@, sep, t as int + 1);
    }
    let k = line.substring_char(0, t).to_owned();
    let v = line.substring_char(t + 1, t2).to_owned();
    Some((k, v))
}

/// Executable renderer of one log line; matches `render_entry` exactly.
pub fn render_entry_line(k: &str, v: &str) -> (r: String)
    ensures
        r@ == render_entry(k@, v@),
{
    let mut out = k.to_owned();
    out.append("\t");
    out.append(v);
    out.append("\n");
    proof {
        reveal_strlit("\t");
        reveal_strlit("\n");
        assert(out@ =~= render_entry(k@, v@));
    }
    out
}

/// An entry that the log format represents faithfully: neither field holds a
/// tab or a newline.
pub open spec fn log_clean(e: (Seq<char>, Seq<char>)) -> bool {
    &&& free_of(e.0, '\t')
    &&& free_of(e.0, '\n')
    &&& free_of(e.1, '\t')
    &&& free_of(e.1, '\n')
}

/// Law: rendering clean entries and parsing the result gives the entries
/// back unchanged. This is the durable half of the cache round trip: what a
/// run appends, a later load reads back as the same key/value pairs.
pub proof fn lemma_log_round_trip(entries: Seq<(Seq<char>, Seq<char>)>)
    requires
        forall|i: int| 0 <= i < entries.len() ==> log_clean(#[trigger] entries[i]),
    ensures
        parse_log(render_log(entries), '\t') == Option::Some(entries),
    decreases entries.len(),
{
    if entries.len() == 0 {
    } else {
        let k = entries[0].0;
        let v = entries[0].1;
        let first = render_entry(k, v);
        let rest = render_log(entries.drop_first());
        let s = first + rest;
        assert(render_log(entries) == s);
        let p: int = k.len() as int + 1 + v.len() as int;
        assert(s[p] == '\n');
        assert(forall|j: int| 0 <= j < p ==> s[j] != '\n') by {
            assert(forall|j: int| 0 <= j < k.len() ==> s[j] == k[j]);
            assert(s[k.len() as int] == '\t');
            assert(forall|j: int|
                k.len() + 1 <= j < p ==> s[j] == v[j - k.len() - 1]);
        }
        lemma_find_from_found(s, '\n', 0, p);
        let line = s.subrange(0, p);
        assert(line =~= k + seq!['\t'] + v);
        // the key runs to the first tab of the line
        assert(line[k.len() as int] == '\t');
        assert(forall|j: int| 0 <= j < k.len() ==> line[j] == k[j] && line[j] != '\t');
        lemma_find_from_found(line, '\t', 0, k.len() as int);
        assert(forall|j: int|
            k.len() + 1 <= j < line.len() ==> line[j] == v[j - k.len() - 1] && line[j] != '\t');
        lemma_find_from_none(line, '\t', k.len() as int + 1);
        assert(line.subrange(0, k.len() as int) =~= k);
        assert(line.subrange(k.len() as int + 1, line.len() as int) =~= v);
        assert(parse_line(line, '\t') == Option::Some((k, v)));
        if p + 1 == s.len() {
            assert(rest.len() == 0);
            assert(parse_log(s.subrange(p + 1, s.len() as int), '\t') == Option::Some(Seq::<(
                Seq<char>,
                Seq<char>,
            )>::empty())) by {
                assert(s.subrange(p + 1, s.len() as int) =~= Seq::<char>::empty());
            }
            lemma_log_round_trip(entries.drop_first());
            assert(seq![(k, v)] + entries.drop_first() =~= entries);
        } else {
            assert(s.subrange(p + 1, s.len() as int) =~= rest);
            lemma_log_round_trip(entries.drop_first());
            assert(seq![(k, v)] + entries.drop_first() =~= entries);
        }
    }
}

} // verus!
