use vstd::prelude::*;

use crate::text::{
    find_from, lemma_log_round_trip, log_clean, parse_log, parse_log_entries, render_entry,
    render_entry_line, render_log, str_eq,
};

verus! {

/// The value that an append-only key/value log associates with a key: the
/// value of the earliest entry whose key matches, so that duplicates from
/// repeated runs are harmless.
pub open spec fn lookup(kvs: Seq<(Seq<char>, Seq<char>)>, key: Seq<char>) -> Option<Seq<char>>
    decreases kvs.len(),
{
    if kvs.len() == 0 {
        None
    } else if kvs[0].0 == key {
        Some(kvs[0].1)
    } else {
        lookup(kvs.drop_first(), key)
    }
}

/// How a lookup reads an appended entry: every key already bound keeps its
/// value, and the appended key becomes bound if it was not.
pub proof fn lemma_lookup_push(
    kvs: Seq<(Seq<char>, Seq<char>)>,
    k: Seq<char>,
    v: Seq<char>,
    q: Seq<char>,
)
    ensures
        lookup(kvs.push((k, v)), q) == if lookup(kvs, q) is Some {
            lookup(kvs, q)
        } else if q == k {
            Some(v)
        } else {
            None::<Seq<char>>
        },
    decreases kvs.len(),
{
    if kvs.len() == 0 {
        assert(kvs.push((k, v)).drop_first() =~= kvs);
    } else {
        assert(kvs.push((k, v)).drop_first() =~= kvs.drop_first().push((k, v)));
        lemma_lookup_push(kvs.drop_first(), k, v, q);
    }
}

/// String pairs seen as pairs of character sequences, in order.
pub open spec fn kv_view(s: Seq<(String, String)>) -> Seq<(Seq<char>, Seq<char>)> {
    s.map_values(|p: (String, String)| (p.0@, p.1@))
}

/// A lookup in concatenated logs reads the left log first; the right one
/// answers only for keys the left leaves unbound.
pub proof fn lemma_lookup_concat(
    a: Seq<(Seq<char>, Seq<char>)>,
    b: Seq<(Seq<char>, Seq<char>)>,
    q: Seq<char>,
)
    ensures
        lookup(a + b, q) == if lookup(a, q) is Some {
            lookup(a, q)
        } else {
            lookup(b, q)
        },
    decreases a.len(),
{
    if a.len() == 0 {
        assert(a + b =~= b);
    } else {
        assert((a + b).drop_first() =~= a.drop_first() + b);
        lemma_lookup_concat(a.drop_first(), b, q);
    }
}

#[derive(Debug)]
pub enum CacheError {
    /// Some line of the backing log has no tab separator.
    MalformedLine,
}

/// An in-memory projection of one append-only key/value log, in entry order.
/// Two instances exist in the pipeline: selector to signature, and address
/// to contract name.
pub struct CacheMap {
    entries: Vec<(String, String)>,
}

impl CacheMap {
    /// The entries as mathematical sequences, in log order.
    pub closed spec fn kv(self) -> Seq<(Seq<char>, Seq<char>)> {
        kv_view(self.entries@)
    }

    /// An empty cache, as a missing backing store loads to.
    pub fn new() -> (r: Self)
        ensures
            r.kv() == Seq::<(Seq<char>, Seq<char>)>::empty(),
    {
        let r = CacheMap { entries: Vec::new() };
        proof {
            assert(r.kv() =~= Seq::<(Seq<char>, Seq<char>)>::empty());
        }
        r
    }

    /// Load a cache from the full text of its backing log. Fails if and only
    /// if some line of the log is malformed.
    pub fn from_log(contents: &str) -> (r: Result<Self, CacheError>)
        ensures
            match r {
                Ok(c) => parse_log(contents@, '\t') == Some(c.kv()),
                Err(_) => parse_log(contents@, '\t') is None,
            },
    {
        match parse_log_entries(contents, '\t') {
            Some(entries) => Ok(CacheMap { entries }),
            None => Err(CacheError::MalformedLine),
        }
    }

    /// The cached value for `key`, if any; never consults anything outside
    /// the in-memory entries.
    pub fn get(&self, key: &str) -> (r: Option<&String>)
        ensures
            match r {
                Some(v) => lookup(self.kv(), key@) == Some(v@),
                None => lookup(self.kv(), key@) is None,
            },
    {
        let n = self.entries.len();
        let mut i: usize = 0;
        proof {
            assert(self.kv().skip(0) =~= self.kv());
        }
        while i < n
            invariant
                i <= n,
                n == self.entries.len(),
                lookup(self.kv(), key@) == lookup(self.kv().skip(i as int), key@),
            decreases n - i,
        {
            proof {
                assert(self.kv().skip(i as int)[0] == self.kv()[i as int]);
                assert(self.kv().skip(i as int).drop_first() =~= self.kv().skip(i as int + 1));
            }
            if str_eq(self.entries[i].0.as_str(), key) {
                return Some(&self.entries[i].1);
            }
            i = i + 1;
        }
        proof {
            assert(self.kv().skip(n as int) =~= Seq::<(Seq<char>, Seq<char>)>::empty());
        }
        None
    }

    /// Append one entry to the in-memory cache and return the line that the
    /// caller must append to the durable log, newline included.
    pub fn put(&mut self, key: &str, value: &str) -> (line: String)
        ensures
            final(self).kv() == old(self).kv().push((key@, value@)),
            line@ == render_entry(key@, value@),
    {
        self.entries.push((key.to_owned(), value.to_owned()));
        proof {
            assert(self.kv() =~= old(self).kv().push((key@, value@)));
        }
        render_entry_line(key, value)
    }
}

/// Law, round trip: the log lines written for a run's entries, loaded by a
/// fresh process, rebuild exactly the same key-to-value mapping, provided no
/// key or value holds a tab or newline.
pub proof fn lemma_cache_round_trip(entries: Seq<(Seq<char>, Seq<char>)>)
    requires
        forall|i: int| 0 <= i < entries.len() ==> log_clean(#[trigger] entries[i]),
    ensures
        parse_log(render_log(entries), '\t') == Some(entries),
        forall|q: Seq<char>| #[trigger]
            lookup(parse_log(render_log(entries), '\t').unwrap(), q) == lookup(entries, q),
{
    lemma_log_round_trip(entries);
}

} // verus!
