use vstd::prelude::*;

use crate::cache::{kv_view, lemma_lookup_concat, lemma_lookup_push, lookup, CacheMap};
use crate::text::{
    count_char, free_of, lemma_count_char_concat, lemma_count_char_zero, render_entry, str_eq,
};

verus! {

// ---------------------------------------------------------------------------
// Signature resolver: 4-byte selector to human-readable function signature.
// ---------------------------------------------------------------------------

/// What the signature resolver answers without any external lookup: the
/// empty selector resolves to the empty signature, every other selector to
/// its cached value if one exists.
pub open spec fn resolve_cached(kv: Seq<(Seq<char>, Seq<char>)>, sel: Seq<char>) -> Option<
    Seq<char>,
> {
    if sel.len() == 0 {
        Some(Seq::empty())
    } else {
        lookup(kv, sel)
    }
}

/// First stage of resolving a selector: answer from the cache when possible.
/// `None` means the caller must perform one external signature-database
/// lookup and record its result with `signature_finish`.
pub fn signature_begin(cache: &CacheMap, selector: &str) -> (r: Option<String>)
    ensures
        match r {
            Some(s) => resolve_cached(cache.kv(), selector@) == Some(s@),
            None => resolve_cached(cache.kv(), selector@) is None,
        },
{
    if selector.unicode_len() == 0 {
        let e = String::new();
        proof {
            assert(e@ =~= Seq::<char>::empty());
        }
        Some(e)
    } else {
        match cache.get(selector) {
            Some(v) => Some(v.clone()),
            None => None,
        }
    }
}

/// Second stage: record the signature one external lookup returned for a
/// selector that was missing. Returns the line to append to the durable log.
pub fn signature_finish(cache: &mut CacheMap, selector: &str, signature: &str) -> (line: String)
    requires
        selector@.len() > 0,
        lookup(old(cache).kv(), selector@) is None,
    ensures
        final(cache).kv() == old(cache).kv().push((selector@, signature@)),
        resolve_cached(final(cache).kv(), selector@) == Some(signature@),
        line@ == render_entry(selector@, signature@),
{
    let line = cache.put(selector, signature);
    proof {
        lemma_lookup_push(old(cache).kv(), selector@, signature@, selector@);
    }
    line
}

/// Law: a selector already bound in the cache is answered from the cache
/// alone — resolving it requests no external lookup.
pub proof fn lemma_cached_selector_needs_no_lookup(
    kv: Seq<(Seq<char>, Seq<char>)>,
    sel: Seq<char>,
)
    requires
        lookup(kv, sel) is Some,
    ensures
        resolve_cached(kv, sel) is Some,
        sel.len() > 0 ==> resolve_cached(kv, sel) == lookup(kv, sel),
{
}

/// Law, idempotence: once a missing selector's signature is recorded,
/// resolving the same selector again answers from the cache with that very
/// signature — a run issues at most one external lookup per selector.
pub proof fn lemma_signature_resolution_idempotent(
    kv: Seq<(Seq<char>, Seq<char>)>,
    sel: Seq<char>,
    sig: Seq<char>,
)
    requires
        sel.len() > 0,
        lookup(kv, sel) is None,
    ensures
        resolve_cached(kv.push((sel, sig)), sel) == Some(sig),
{
    lemma_lookup_push(kv, sel, sig, sel);
}

// ---------------------------------------------------------------------------
// Contract name resolver: address to composed contract name, following
// proxy-to-implementation chains.
// ---------------------------------------------------------------------------

/// The separator between a proxy's declared name and its implementation's
/// resolved name.
pub open spec fn arrow() -> Seq<char> {
    seq![' ', '-', '>', ' ']
}

/// The name composed from a chain of declared proxy names ending in `tail`:
/// `decls[0] -> decls[1] -> ... -> tail`.
pub open spec fn compose_chain(decls: Seq<Seq<char>>, tail: Seq<char>) -> Seq<char>
    decreases decls.len(),
{
    if decls.len() == 0 {
        tail
    } else {
        decls[0] + arrow() + compose_chain(decls.drop_first(), tail)
    }
}

/// The most proxy hops a resolution may follow before it fails; a chain
/// this long is a proxy cycle or pathological nesting.
pub const MAX_CHAIN_DEPTH: usize = 8;

/// A name resolution suspended on one external source-code lookup.
/// `frames` holds the proxy hops already seen, outermost first, each as
/// (address, declared name); `pending` is the address whose lookup the
/// caller must perform next.
pub struct NameResolver {
    pub frames: Vec<(String, String)>,
    pub pending: String,
}

impl NameResolver {
    /// The declared names of the suspended hops, outermost first.
    pub open spec fn decls(self) -> Seq<Seq<char>> {
        self.frames@.map_values(|p: (String, String)| p.1@)
    }

    /// The addresses of the suspended hops, outermost first.
    pub open spec fn addrs(self) -> Seq<Seq<char>> {
        self.frames@.map_values(|p: (String, String)| p.0@)
    }

    /// The address the whole resolution was started for.
    pub open spec fn origin(self) -> Seq<char> {
        chain_origin(kv_view(self.frames@), self.pending@)
    }
}

pub enum NameOutcome {
    /// The resolved, fully composed contract name.
    Done(String),
    /// The resolution needs one external lookup of the state's pending
    /// address; feed its result to `name_step`.
    Lookup(NameResolver),
}

#[derive(Debug)]
pub enum NameError {
    /// The proxy-implementation chain closed a cycle or exceeded
    /// `MAX_CHAIN_DEPTH` hops.
    ProxyCycleOrTooDeep,
}

/// The address a resolution with these suspended hops was started for.
pub open spec fn chain_origin(frames: Seq<(Seq<char>, Seq<char>)>, pending: Seq<char>) -> Seq<
    char,
> {
    if frames.len() == 0 {
        pending
    } else {
        frames[0].0
    }
}

/// No address occurs twice among the hops and the pending address.
pub open spec fn chain_addrs_distinct(
    frames: Seq<(Seq<char>, Seq<char>)>,
    pending: Seq<char>,
) -> bool {
    &&& forall|i: int, j: int|
        0 <= i < j < frames.len() ==> (#[trigger] frames[i]).0 != (#[trigger] frames[j]).0
    &&& forall|i: int| 0 <= i < frames.len() ==> (#[trigger] frames[i]).0 != pending
}

/// The cache entries appended while a resolved chain unwinds: the innermost
/// address first with the chain's tail name, then each suspended hop,
/// inside out, with its composed name.
pub open spec fn rising(frames: Seq<(Seq<char>, Seq<char>)>, tail: Seq<char>) -> Seq<(
    Seq<char>,
    Seq<char>,
)>
    decreases frames.len(),
{
    if frames.len() == 0 {
        Seq::empty()
    } else {
        let t2 = frames.last().1 + arrow() + tail;
        seq![(frames.last().0, t2)] + rising(frames.drop_last(), t2)
    }
}

pub open spec fn unwind_entries(
    frames: Seq<(Seq<char>, Seq<char>)>,
    pending: Seq<char>,
    tail: Seq<char>,
) -> Seq<(Seq<char>, Seq<char>)> {
    seq![(pending, tail)] + rising(frames, tail)
}

/// The log lines that record a sequence of cache entries.
pub open spec fn rendered_lines(entries: Seq<(Seq<char>, Seq<char>)>) -> Seq<Seq<char>> {
    entries.map_values(|e: (Seq<char>, Seq<char>)| render_entry(e.0, e.1))
}

/// Start resolving an address. The empty address resolves to the empty
/// name; a cached address resolves to its cached name; anything else
/// suspends on one external lookup of that address.
pub fn name_begin(cache: &CacheMap, address: &str) -> (r: NameOutcome)
    ensures
        match r {
            NameOutcome::Done(s) => (if address@.len() == 0 {
                s@ == Seq::<char>::empty()
            } else {
                lookup(cache.kv(), address@) == Some(s@)
            }),
            NameOutcome::Lookup(st) => {
                &&& address@.len() > 0
                &&& lookup(cache.kv(), address@) is None
                &&& st.frames@.len() == 0
                &&& st.pending@ == address@
            },
        },
        address@.len() == 0 ==> r is Done,
        address@.len() > 0 && lookup(cache.kv(), address@) is Some ==> r is Done,
{
    if address.unicode_len() == 0 {
        let e = String::new();
        proof {
            assert(e@ =~= Seq::<char>::empty());
        }
        NameOutcome::Done(e)
    } else {
        match cache.get(address) {
            Some(v) => NameOutcome::Done(v.clone()),
            None => NameOutcome::Lookup(
                NameResolver { frames: Vec::new(), pending: address.to_owned() },
            ),
        }
    }
}

/// Whether some suspended hop already holds this address.
fn frames_contain(frames: &Vec<(String, String)>, address: &str) -> (r: bool)
    ensures
        r == exists|i: int| 0 <= i < frames@.len() && (#[trigger] frames@[i]).0@ == address@,
{
    let n = frames.len();
    let mut i: usize = 0;
    while i < n
        invariant
            i <= n,
            n == frames@.len(),
            forall|k: int| 0 <= k < i ==> (#[trigger] frames@[k]).0@ != address@,
        decreases n - i,
    {
        if str_eq(frames[i].0.as_str(), address) {
            return true;
        }
        i = i + 1;
    }
    false
}

/// Feed one external lookup result — the pending address's declared name
/// and its reported implementation address — into a suspended resolution.
///
/// With an empty implementation the declared name closes the chain: the
/// whole chain unwinds, each hop is cached under its own address with its
/// fully composed name, and the outcome is the origin's composed name. A
/// cached implementation closes the chain the same way with the cached name
/// appended. An unknown implementation suspends one hop deeper, unless that
/// would close a cycle or pass `MAX_CHAIN_DEPTH` hops, which fails instead.
/// The returned lines are what the caller must append to the durable log,
/// in order.
pub fn name_step(
    cache: &mut CacheMap,
    st: NameResolver,
    declared: &str,
    implementation: &str,
) -> (r: Result<(NameOutcome, Vec<String>), NameError>)
    ensures
        ({
            let kv0 = old(cache).kv();
            match r {
                Ok((outcome, lines)) => match outcome {
                    NameOutcome::Done(name) => {
                        let closed = implementation@.len() == 0 || lookup(
                            kv0,
                            implementation@,
                        ) is Some;
                        let tail = if implementation@.len() == 0 {
                            declared@
                        } else {
                            declared@ + arrow() + lookup(kv0, implementation@).unwrap()
                        };
                        &&& closed
                        &&& name@ == compose_chain(st.decls(), tail)
                        &&& final(cache).kv() == kv0 + unwind_entries(
                            kv_view(st.frames@),
                            st.pending@,
                            tail,
                        )
                        &&& lines@.map_values(|l: String| l@) == rendered_lines(
                            unwind_entries(kv_view(st.frames@), st.pending@, tail),
                        )
                    },
                    NameOutcome::Lookup(st2) => {
                        &&& implementation@.len() > 0
                        &&& lookup(kv0, implementation@) is None
                        &&& !chain_blocked(st, implementation@)
                        &&& kv_view(st2.frames@) == kv_view(st.frames@).push(
                            (st.pending@, declared@),
                        )
                        &&& st2.pending@ == implementation@
                        &&& final(cache).kv() == kv0
                        &&& lines@.len() == 0
                    },
                },
                Err(_) => {
                    &&& implementation@.len() > 0
                    &&& lookup(kv0, implementation@) is None
                    &&& chain_blocked(st, implementation@)
                    &&& final(cache).kv() == kv0
                },
            }
        }),
{
    if implementation.unicode_len() == 0 {
        let NameResolver { frames, pending } = st;
        proof {
            assert(frames@.map_values(|p: (String, String)| p.1@) =~= st.decls());
        }
        let (name, lines) = unwind(cache, frames, pending.as_str(), declared.to_owned());
        Ok((NameOutcome::Done(name), lines))
    } else {
        let cached: Option<String> = match cache.get(implementation) {
            Some(v) => Some(v.clone()),
            None => None,
        };
        match cached {
            Some(v) => {
                let tail = declared.to_owned().concat(" -> ").concat(v.as_str());
                proof {
                    reveal_strlit(" -> ");
                    assert(tail@ =~= declared@ + arrow() + v@);
                }
                let NameResolver { frames, pending } = st;
                proof {
                    assert(frames@.map_values(|p: (String, String)| p.1@) =~= st.decls());
                }
                let (name, lines) = unwind(cache, frames, pending.as_str(), tail);
                Ok((NameOutcome::Done(name), lines))
            },
            None => {
                if st.frames.len() >= MAX_CHAIN_DEPTH || str_eq(
                    implementation,
                    st.pending.as_str(),
                ) || frames_contain(&st.frames, implementation) {
                    proof {
                        assert(chain_blocked(st, implementation@)) by {
                            if !(st.frames@.len() >= MAX_CHAIN_DEPTH) && implementation@
                                != st.pending@ {
                                let i = choose|i: int|
                                    0 <= i < st.frames@.len() && (#[trigger] st.frames@[i]).0@
                                        == implementation@;
                                assert(st.addrs()[i] == implementation@);
                            }
                        }
                    }
                    Err(NameError::ProxyCycleOrTooDeep)
                } else {
                    proof {
                        assert(!chain_blocked(st, implementation@)) by {
                            assert(forall|i: int|
                                0 <= i < st.frames@.len() ==> #[trigger] st.addrs()[i]
                                    == st.frames@[i].0@);
                        }
                    }
                    let NameResolver { mut frames, pending } = st;
                    frames.push((pending, declared.to_owned()));
                    proof {
                        assert(kv_view(frames@) =~= kv_view(st.frames@).push(
                            (st.pending@, declared@),
                        ));
                    }
                    Ok(
                        (
                            NameOutcome::Lookup(
                                NameResolver { frames, pending: implementation.to_owned() },
                            ),
                            Vec::new(),
                        ),
                    )
                }
            },
        }
    }
}

/// Why a deeper hop is refused: the chain is already `MAX_CHAIN_DEPTH` hops
/// long, or the implementation address closes a cycle through the chain.
pub open spec fn chain_blocked(st: NameResolver, implementation: Seq<char>) -> bool {
    ||| st.frames@.len() >= MAX_CHAIN_DEPTH
    ||| implementation == st.pending@
    ||| exists|i: int| 0 <= i < st.addrs().len() && st.addrs()[i] == implementation
}

/// Unwind a closed chain: cache the pending address's name, then each
/// suspended hop's composed name, inside out. Returns the origin's composed
/// name and the log lines for every entry written, in order.
fn unwind(cache: &mut CacheMap, frames: Vec<(String, String)>, pending: &str, tail: String) -> (r:
    (String, Vec<String>))
    ensures
        r.0@ == compose_chain(frames@.map_values(|p: (String, String)| p.1@), tail@),
        final(cache).kv() == old(cache).kv() + unwind_entries(kv_view(frames@), pending@, tail@),
        r.1@.map_values(|l: String| l@) == rendered_lines(
            unwind_entries(kv_view(frames@), pending@, tail@),
        ),
{
    let ghost frames0 = kv_view(frames@);
    let ghost tail0 = tail@;
    let ghost goal = compose_chain(frames0.map_values(|p: (Seq<char>, Seq<char>)| p.1), tail0);
    let mut name = tail;
    let mut lines: Vec<String> = Vec::new();
    proof {
        assert(lines@.map_values(|l: String| l@) =~= Seq::<Seq<char>>::empty());
    }
    let line0 = cache.put(pending, name.as_str());
    lines.push(line0);
    let ghost mut appended: Seq<(Seq<char>, Seq<char>)> = seq![(pending@, tail0)];
    proof {
        assert(cache.kv() =~= old(cache).kv() + appended);
        assert(lines@.map_values(|l: String| l@) =~= rendered_lines(appended));
        assert(appended + rising(frames0, tail0) =~= unwind_entries(frames0, pending@, tail0));
    }
    let mut fr = frames;
    while fr.len() > 0
        invariant
            cache.kv() == old(cache).kv() + appended,
            lines@.map_values(|l: String| l@) == rendered_lines(appended),
            appended + rising(kv_view(fr@), name@) == unwind_entries(frames0, pending@, tail0),
            compose_chain(kv_view(fr@).map_values(|p: (Seq<char>, Seq<char>)| p.1), name@)
                == goal,
        decreases fr@.len(),
    {
        let ghost frpre = fr@;
        let ghost pre = kv_view(frpre);
        let ghost app0 = appended;
        let ghost name0 = name@;
        let ghost lines0 = lines@;
        let popped = fr.pop().unwrap();
        let (a, d) = popped;
        proof {
            assert(pre.len() >= 1);
            assert(pre[pre.len() - 1] == (frpre[frpre.len() - 1].0@, frpre[frpre.len() - 1].1@));
            assert(pre.last() == (a@, d@));
            assert(kv_view(fr@) =~= pre.drop_last());
        }
        let composed = d.concat(" -> ").concat(name.as_str());
        proof {
            reveal_strlit(" -> ");
            assert(composed@ =~= d@ + arrow() + name0);
        }
        name = composed;
        let line = cache.put(a.as_str(), name.as_str());
        lines.push(line);
        proof {
            appended = app0.push((a@, name@));
            assert(cache.kv() =~= old(cache).kv() + appended);
            assert(lines@ == lines0.push(line));
            assert(lines@.map_values(|l: String| l@) =~= lines0.map_values(|l: String| l@).push(
                line@,
            ));
            assert(rendered_lines(appended) =~= rendered_lines(app0).push(
                render_entry(a@, name@),
            ));
            // the entry just written is the head of what `rising` still owes
            assert(rising(pre, name0) == seq![(a@, name@)] + rising(pre.drop_last(), name@));
            assert(app0 + (seq![(a@, name@)] + rising(pre.drop_last(), name@)) =~= appended
                + rising(pre.drop_last(), name@));
            assert(appended + rising(kv_view(fr@), name@) == unwind_entries(
                frames0,
                pending@,
                tail0,
            ));
            // folding the popped hop into the tail keeps the composed goal
            let decls_new = kv_view(fr@).map_values(|p: (Seq<char>, Seq<char>)| p.1);
            let decls_old = pre.map_values(|p: (Seq<char>, Seq<char>)| p.1);
            assert(decls_old =~= decls_new.push(d@));
            lemma_compose_snoc(decls_new, d@, name0);
        }
    }
    proof {
        assert(kv_view(fr@) =~= Seq::<(Seq<char>, Seq<char>)>::empty());
        assert(rising(kv_view(fr@), name@) =~= Seq::<(Seq<char>, Seq<char>)>::empty());
        assert(appended =~= unwind_entries(frames0, pending@, tail0));
        assert(kv_view(fr@).map_values(|p: (Seq<char>, Seq<char>)| p.1) =~= Seq::<
            Seq<char>,
        >::empty());
        assert(name@ == goal);
        assert(frames0.map_values(|p: (Seq<char>, Seq<char>)| p.1) =~= frames@.map_values(
            |p: (String, String)| p.1@,
        ));
    }
    (name, lines)
}

// ---------------------------------------------------------------------------
// Laws of chain composition and of the cache entries a resolution writes.
// ---------------------------------------------------------------------------

/// Appending one hop at the inner end of a chain is the same as folding it
/// into the tail.
pub proof fn lemma_compose_snoc(decls: Seq<Seq<char>>, d: Seq<char>, tail: Seq<char>)
    ensures
        compose_chain(decls.push(d), tail) == compose_chain(decls, d + arrow() + tail),
    decreases decls.len(),
{
    if decls.len() == 0 {
        assert(decls.push(d)[0] == d);
        assert(decls.push(d).drop_first() =~= decls);
        assert(compose_chain(decls.push(d), tail) == d + arrow() + compose_chain(decls, tail));
    } else {
        assert(decls.push(d)[0] == decls[0]);
        assert(decls.push(d).drop_first() =~= decls.drop_first().push(d));
        lemma_compose_snoc(decls.drop_first(), d, tail);
    }
}

/// Law, chain length: when no declared name nor the tail holds a dash, the
/// composed name of a chain with `n` hops holds exactly `n` dashes — one
/// per " -> " separator — so it has exactly `n` separators and `n + 1`
/// segments.
pub proof fn lemma_compose_chain_segments(decls: Seq<Seq<char>>, tail: Seq<char>)
    requires
        forall|i: int| 0 <= i < decls.len() ==> free_of(#[trigger] decls[i], '-'),
        free_of(tail, '-'),
    ensures
        count_char(compose_chain(decls, tail), '-') == decls.len(),
    decreases decls.len(),
{
    if decls.len() == 0 {
        lemma_count_char_zero(tail, '-');
    } else {
        let rest = compose_chain(decls.drop_first(), tail);
        lemma_compose_chain_segments(decls.drop_first(), tail);
        lemma_count_char_concat(decls[0] + arrow(), rest, '-');
        lemma_count_char_concat(decls[0], arrow(), '-');
        lemma_count_char_zero(decls[0], '-');
        assert(count_char(arrow(), '-') == 1) by {
            reveal_with_fuel(count_char, 5);
            assert(arrow().drop_first() =~= seq!['-', '>', ' ']);
            assert(seq!['-', '>', ' '].drop_first() =~= seq!['>', ' ']);
            assert(seq!['>', ' '].drop_first() =~= seq![' ']);
            assert(seq![' '].drop_first() =~= Seq::<char>::empty());
        }
        assert(decls[0] + arrow() + rest =~= (decls[0] + arrow()) + rest);
    }
}

/// What `rising` binds each suspended hop's address to: the name composed
/// from that hop inward.
proof fn lemma_rising_lookup(frames: Seq<(Seq<char>, Seq<char>)>, tail: Seq<char>, j: int)
    requires
        forall|i1: int, i2: int|
            0 <= i1 < i2 < frames.len() ==> (#[trigger] frames[i1]).0 != (#[trigger] frames[i2]).0,
        0 <= j < frames.len(),
    ensures
        lookup(rising(frames, tail), frames[j].0) == Some(
            compose_chain(
                frames.skip(j).map_values(|p: (Seq<char>, Seq<char>)| p.1),
                tail,
            ),
        ),
    decreases frames.len(),
{
    let n = frames.len() as int;
    let a = frames.last().0;
    let d = frames.last().1;
    let t2 = d + arrow() + tail;
    let r = rising(frames, tail);
    assert(r == seq![(a, t2)] + rising(frames.drop_last(), t2));
    if j == n - 1 {
        assert(r[0] == (a, t2));
        assert(lookup(r, a) == Some(t2));
        let s = frames.skip(j).map_values(|p: (Seq<char>, Seq<char>)| p.1);
        assert(s =~= seq![d]);
        assert(s[0] == d);
        assert(s.drop_first() =~= Seq::<Seq<char>>::empty());
        assert(compose_chain(s, tail) == d + arrow() + compose_chain(s.drop_first(), tail));
        assert(compose_chain(s.drop_first(), tail) == tail);
    } else {
        assert(frames[j].0 != a);
        assert(r.drop_first() =~= rising(frames.drop_last(), t2));
        assert(lookup(r, frames[j].0) == lookup(rising(frames.drop_last(), t2), frames[j].0));
        assert(frames.drop_last()[j] == frames[j]);
        lemma_rising_lookup(frames.drop_last(), t2, j);
        let s1 = frames.drop_last().skip(j).map_values(|p: (Seq<char>, Seq<char>)| p.1);
        let s2 = frames.skip(j).map_values(|p: (Seq<char>, Seq<char>)| p.1);
        assert(s2 =~= s1.push(d));
        lemma_compose_snoc(s1, d, tail);
    }
}

/// Law, idempotence and full composition: a resolution that closes with
/// tail name `tail` caches, under the address it was started for, exactly
/// the fully composed chain name — so resolving that address again answers
/// from the cache with the same name and issues no further lookup.
pub proof fn lemma_name_resolution_idempotent(
    kv: Seq<(Seq<char>, Seq<char>)>,
    frames: Seq<(Seq<char>, Seq<char>)>,
    pending: Seq<char>,
    tail: Seq<char>,
)
    requires
        chain_addrs_distinct(frames, pending),
        lookup(kv, chain_origin(frames, pending)) is None,
    ensures
        lookup(kv + unwind_entries(frames, pending, tail), chain_origin(frames, pending)) == Some(
            compose_chain(frames.map_values(|p: (Seq<char>, Seq<char>)| p.1), tail),
        ),
{
    let entries = unwind_entries(frames, pending, tail);
    let origin = chain_origin(frames, pending);
    lemma_lookup_concat(kv, entries, origin);
    if frames.len() == 0 {
        assert(entries[0] == (pending, tail));
        assert(lookup(entries, pending) == Some(tail));
        assert(frames.map_values(|p: (Seq<char>, Seq<char>)| p.1) =~= Seq::<Seq<char>>::empty());
    } else {
        assert(origin == frames[0].0);
        assert(frames[0].0 != pending);
        assert(entries[0] == (pending, tail));
        assert(entries.drop_first() =~= rising(frames, tail));
        lemma_rising_lookup(frames, tail, 0);
        assert(frames.skip(0) =~= frames);
    }
}

} // verus!
