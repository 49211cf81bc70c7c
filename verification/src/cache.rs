//! The session cache: opaque session tokens mapped to reusable log
//! cursors, with last-access bookkeeping and eviction of idle entries.
//!
//! A session binds a client's successive window queries to one cursor,
//! so consecutive touching windows never re-scan the log.  An entry
//! whose stream has no chat log holds no cursor and always answers with
//! an empty result.  Losing an entry never loses correctness: the next
//! query simply starts over from a fresh cursor.

use vstd::prelude::*;

use crate::cursor::{result_view, window_step, CursorModel, LogCursor};
use crate::item::Item;
use crate::parse::ParseError;

verus! {

/// Mathematical model of one cache entry.
pub ghost struct EntryModel {
    /// The stream this session is bound to.
    pub stream_id: int,
    /// The instant (epoch milliseconds) of the entry's last use.
    pub last_access: int,
    /// The session's cursor; `None` means the stream has no chat log.
    pub cursor: Option<CursorModel>,
}

struct CacheEntry {
    token: u128,
    stream_id: i64,
    last_access: i64,
    cursor: Option<LogCursor>,
}

impl CacheEntry {
    spec fn model(&self) -> EntryModel {
        EntryModel {
            stream_id: self.stream_id as int,
            last_access: self.last_access as int,
            cursor: match self.cursor {
                Some(c) => Some(c@),
                None => None,
            },
        }
    }

    spec fn wf(&self) -> bool {
        match self.cursor {
            Some(c) => c.wf(),
            None => true,
        }
    }
}

spec fn tokens_unique(s: Seq<CacheEntry>) -> bool {
    forall|p: int, q: int|
        #![trigger s[p].token, s[q].token]
        0 <= p < q < s.len() ==> s[p].token != s[q].token
}

spec fn entries_map(s: Seq<CacheEntry>) -> Map<u128, EntryModel>
    decreases s.len(),
{
    if s.len() == 0 {
        Map::empty()
    } else {
        entries_map(s.drop_last()).insert(s.last().token, s.last().model())
    }
}

proof fn lemma_entries_map_domain(s: Seq<CacheEntry>, t: u128)
    ensures
        entries_map(s).contains_key(t) <==> exists|p: int|
            0 <= p < s.len() && #[trigger] s[p].token == t,
    decreases s.len(),
{
    if s.len() > 0 {
        lemma_entries_map_domain(s.drop_last(), t);
        if s.last().token == t {
            assert(s[s.len() - 1].token == t);
        } else if entries_map(s).contains_key(t) {
            let p = choose|p: int| 0 <= p < s.drop_last().len() && #[trigger] s.drop_last()[p].token
                == t;
            assert(s[p].token == t);
        } else if exists|p: int| 0 <= p < s.len() && #[trigger] s[p].token == t {
            let p = choose|p: int| 0 <= p < s.len() && #[trigger] s[p].token == t;
            assert(p < s.len() - 1);
            assert(s.drop_last()[p].token == t);
        }
    }
}

proof fn lemma_entries_map_get(s: Seq<CacheEntry>, p: int)
    requires
        tokens_unique(s),
        0 <= p < s.len(),
    ensures
        entries_map(s).contains_key(s[p].token),
        entries_map(s)[s[p].token] == s[p].model(),
    decreases s.len(),
{
    if p < s.len() - 1 {
        assert(tokens_unique(s.drop_last())) by {
            assert(forall|m: int, n: int|
                #![trigger s.drop_last()[m].token, s.drop_last()[n].token]
                0 <= m < n < s.drop_last().len() ==> s[m].token != s[n].token);
        }
        lemma_entries_map_get(s.drop_last(), p);
        assert(s.drop_last()[p] == s[p]);
        assert(s.last().token != s[p].token);
    }
}

proof fn lemma_tokens_unique_remove(s: Seq<CacheEntry>, p: int)
    requires
        tokens_unique(s),
        0 <= p < s.len(),
    ensures
        tokens_unique(s.remove(p)),
{
    assert(forall|m: int, n: int|
        #![trigger s.remove(p)[m].token, s.remove(p)[n].token]
        0 <= m < n < s.remove(p).len() ==> s.remove(p)[m].token != s.remove(p)[n].token);
}

proof fn lemma_entries_map_remove(s: Seq<CacheEntry>, p: int)
    requires
        tokens_unique(s),
        0 <= p < s.len(),
    ensures
        entries_map(s.remove(p)) == entries_map(s).remove(s[p].token),
    decreases s.len(),
{
    let t = s[p].token;
    if p == s.len() - 1 {
        assert(s.remove(p) =~= s.drop_last());
        lemma_entries_map_domain(s.drop_last(), t);
        assert(forall|q: int| 0 <= q < s.drop_last().len() ==> #[trigger] s.drop_last()[q].token
            != t);
        assert(!entries_map(s.drop_last()).contains_key(t));
        assert(entries_map(s.drop_last()).insert(t, s.last().model()).remove(t) =~= entries_map(
            s.drop_last(),
        ).remove(t));
        assert(entries_map(s.drop_last()).remove(t) =~= entries_map(s.drop_last()));
    } else {
        let d = s.drop_last();
        let last = s.last();
        assert(tokens_unique(d)) by {
            assert(forall|m: int, n: int|
                #![trigger d[m].token, d[n].token]
                0 <= m < n < d.len() ==> s[m].token != s[n].token);
        }
        lemma_entries_map_remove(d, p);
        assert(s.remove(p).drop_last() =~= d.remove(p));
        assert(s.remove(p).last() == last);
        assert(entries_map(s.remove(p)) == entries_map(d.remove(p)).insert(
            last.token,
            last.model(),
        ));
        assert(last.token != t);
        assert(entries_map(d).remove(t).insert(last.token, last.model()) =~= entries_map(
            d,
        ).insert(last.token, last.model()).remove(t));
    }
}

/// The entries of `s` that an eviction sweep with this cutoff keeps,
/// as a map from token to entry model.
spec fn kept_map(s: Seq<CacheEntry>, cutoff: i64) -> Map<u128, EntryModel>
    decreases s.len(),
{
    if s.len() == 0 {
        Map::empty()
    } else {
        let rest = kept_map(s.drop_last(), cutoff);
        if s.last().last_access >= cutoff {
            rest.insert(s.last().token, s.last().model())
        } else {
            rest
        }
    }
}

/// The `(token, stream id)` pairs of the entries of `s` that the sweep
/// evicts, in log order.
spec fn removed_list(s: Seq<CacheEntry>, cutoff: i64) -> Seq<(u128, i64)>
    decreases s.len(),
{
    if s.len() == 0 {
        Seq::empty()
    } else {
        let rest = removed_list(s.drop_last(), cutoff);
        if s.last().last_access < cutoff {
            rest.push((s.last().token, s.last().stream_id))
        } else {
            rest
        }
    }
}

proof fn lemma_kept_map_tokens(s: Seq<CacheEntry>, cutoff: i64, t: u128)
    requires
        kept_map(s, cutoff).contains_key(t),
    ensures
        exists|i: int| 0 <= i < s.len() && #[trigger] s[i].token == t,
    decreases s.len(),
{
    if s.len() > 0 {
        if s.last().last_access >= cutoff && s.last().token == t {
            assert(s[s.len() - 1].token == t);
        } else {
            lemma_kept_map_tokens(s.drop_last(), cutoff, t);
            let i = choose|i: int|
                0 <= i < s.drop_last().len() && #[trigger] s.drop_last()[i].token == t;
            assert(s[i].token == t);
        }
    }
}

proof fn lemma_removed_list_tokens(s: Seq<CacheEntry>, cutoff: i64, idx: int)
    requires
        0 <= idx < removed_list(s, cutoff).len(),
    ensures
        exists|i: int|
            0 <= i < s.len() && #[trigger] s[i].token == removed_list(s, cutoff)[idx].0,
    decreases s.len(),
{
    if s.len() > 0 {
        let rest = removed_list(s.drop_last(), cutoff);
        if idx < rest.len() {
            lemma_removed_list_tokens(s.drop_last(), cutoff, idx);
            let i = choose|i: int|
                0 <= i < s.drop_last().len() && #[trigger] s.drop_last()[i].token == rest[idx].0;
            assert(s[i].token == removed_list(s, cutoff)[idx].0);
        } else {
            assert(s[s.len() - 1].token == removed_list(s, cutoff)[idx].0);
        }
    }
}

/// What the sweep keeps is exactly the fresh half of the map.
proof fn lemma_kept_map_char(s: Seq<CacheEntry>, cutoff: i64)
    requires
        tokens_unique(s),
    ensures
        forall|t: u128| #[trigger]
            kept_map(s, cutoff).contains_key(t) <==> entries_map(s).contains_key(t)
                && entries_map(s)[t].last_access >= cutoff,
        forall|t: u128| #[trigger]
            kept_map(s, cutoff).contains_key(t) ==> kept_map(s, cutoff)[t] == entries_map(s)[t],
    decreases s.len(),
{
    if s.len() > 0 {
        let d = s.drop_last();
        let last = s.last();
        assert(tokens_unique(d)) by {
            assert(forall|m: int, n: int|
                #![trigger d[m].token, d[n].token]
                0 <= m < n < d.len() ==> s[m].token != s[n].token);
        }
        lemma_kept_map_char(d, cutoff);
        lemma_entries_map_domain(d, last.token);
        assert(forall|i: int| 0 <= i < d.len() ==> #[trigger] d[i].token != last.token);
        assert(!entries_map(d).contains_key(last.token));
        assert(entries_map(s) == entries_map(d).insert(last.token, last.model()));
        if last.last_access >= cutoff {
            assert(kept_map(s, cutoff) == kept_map(d, cutoff).insert(last.token, last.model()));
        } else {
            assert(kept_map(s, cutoff) == kept_map(d, cutoff));
        }
        assert forall|t: u128| #[trigger]
            kept_map(s, cutoff).contains_key(t) implies entries_map(s).contains_key(t)
            && entries_map(s)[t].last_access >= cutoff && kept_map(s, cutoff)[t] == entries_map(
            s,
        )[t] by {
            if last.last_access >= cutoff && t == last.token {
                assert(kept_map(s, cutoff)[t] == last.model());
                assert(entries_map(s)[t] == last.model());
            } else {
                assert(kept_map(d, cutoff).contains_key(t));
                if t == last.token {
                    lemma_kept_map_tokens(d, cutoff, t);
                    let i = choose|i: int| 0 <= i < d.len() && #[trigger] d[i].token == t;
                    assert(false);
                }
                assert(entries_map(s)[t] == entries_map(d)[t]);
                assert(kept_map(s, cutoff)[t] == kept_map(d, cutoff)[t]);
            }
        }
        assert forall|t: u128|
            entries_map(s).contains_key(t) && entries_map(s)[t].last_access >= cutoff implies
            #[trigger] kept_map(s, cutoff).contains_key(t) by {
            if t == last.token {
                assert(entries_map(s)[t] == last.model());
            } else {
                assert(entries_map(d).contains_key(t) && entries_map(d)[t].last_access >= cutoff);
            }
        }
    }
}

/// What the sweep evicts is exactly the idle half of the map.
proof fn lemma_removed_list_char(s: Seq<CacheEntry>, cutoff: i64)
    requires
        tokens_unique(s),
    ensures
        forall|idx: int|
            0 <= idx < removed_list(s, cutoff).len() ==> entries_map(s).contains_key(
                (#[trigger] removed_list(s, cutoff)[idx]).0,
            ) && entries_map(s)[removed_list(s, cutoff)[idx].0].last_access < cutoff
                && removed_list(s, cutoff)[idx].1 as int == entries_map(s)[removed_list(
                s,
                cutoff,
            )[idx].0].stream_id,
        forall|t: u128|
            entries_map(s).contains_key(t) && entries_map(s)[t].last_access < cutoff
                ==> exists|idx: int|
                0 <= idx < removed_list(s, cutoff).len() && (#[trigger] removed_list(
                    s,
                    cutoff,
                )[idx]).0 == t,
    decreases s.len(),
{
    if s.len() > 0 {
        let d = s.drop_last();
        let last = s.last();
        let rl = removed_list(s, cutoff);
        let rld = removed_list(d, cutoff);
        assert(tokens_unique(d)) by {
            assert(forall|m: int, n: int|
                #![trigger d[m].token, d[n].token]
                0 <= m < n < d.len() ==> s[m].token != s[n].token);
        }
        lemma_removed_list_char(d, cutoff);
        lemma_entries_map_domain(d, last.token);
        assert(forall|i: int| 0 <= i < d.len() ==> #[trigger] d[i].token != last.token);
        assert(!entries_map(d).contains_key(last.token));
        assert forall|idx: int| 0 <= idx < rl.len() implies entries_map(s).contains_key(
            (#[trigger] rl[idx]).0,
        ) && entries_map(s)[rl[idx].0].last_access < cutoff && rl[idx].1 as int == entries_map(
            s,
        )[rl[idx].0].stream_id by {
            if idx < rld.len() {
                assert(rl[idx] == rld[idx]);
                lemma_removed_list_tokens(d, cutoff, idx);
                let i = choose|i: int| 0 <= i < d.len() && #[trigger] d[i].token == rld[idx].0;
                assert(rld[idx].0 != last.token);
            } else {
                assert(last.last_access < cutoff);
                assert(rl[idx] == (last.token, last.stream_id));
            }
        }
        assert forall|t: u128|
            entries_map(s).contains_key(t) && entries_map(s)[t].last_access < cutoff implies
            exists|idx: int| 0 <= idx < rl.len() && (#[trigger] rl[idx]).0 == t by {
            if t == last.token {
                assert(entries_map(s)[t] == last.model());
                assert(rl[rl.len() - 1].0 == t);
            } else {
                assert(entries_map(d).contains_key(t) && entries_map(d)[t].last_access < cutoff);
                let idx = choose|idx: int|
                    0 <= idx < rld.len() && (#[trigger] rld[idx]).0 == t;
                assert(rl[idx].0 == t);
            }
        }
    }
}

/// Relies on uuid's `Uuid::new_v4`: a freshly generated random
/// version 4 UUID, carried as its 128-bit value.  Nothing is assumed of
/// the value.
#[verifier::external_body]
fn fresh_token_raw() -> u128 {
    uuid::Uuid::new_v4().as_u128()
}

/// The session token a request resolves to: the one it carried, or a
/// newly allocated one.
pub fn resolve_token(requested: Option<u128>) -> (t: u128)
    ensures
        requested is Some ==> t == requested.unwrap(),
{
    match requested {
        Some(t) => t,
        None => fresh_token_raw(),
    }
}

/// The session cache: a single shared structure mapping session tokens
/// to entries.  The caller serializes access to it (one lock held for
/// the whole of resolving an entry and reading its window).
pub struct SessionCache {
    entries: Vec<CacheEntry>,
}

impl View for SessionCache {
    type V = Map<u128, EntryModel>;

    closed spec fn view(&self) -> Map<u128, EntryModel> {
        entries_map(self.entries@)
    }
}

impl SessionCache {
    /// Tokens are distinct and every held cursor is well formed.
    pub closed spec fn wf(&self) -> bool {
        tokens_unique(self.entries@) && forall|p: int|
            0 <= p < self.entries@.len() ==> (#[trigger] self.entries@[p]).wf()
    }

    /// An empty cache.
    pub fn new() -> (c: SessionCache)
        ensures
            c.wf(),
            c@ == Map::<u128, EntryModel>::empty(),
    {
        SessionCache { entries: Vec::new() }
    }

    fn find(&self, token: u128) -> (r: Option<usize>)
        ensures
            match r {
                Some(p) => p < self.entries@.len() && self.entries@[p as int].token == token,
                None => forall|p: int|
                    0 <= p < self.entries@.len() ==> (#[trigger] self.entries@[p]).token != token,
            },
    {
        let mut p: usize = 0;
        while p < self.entries.len()
            invariant
                p <= self.entries@.len(),
                forall|q: int| 0 <= q < p ==> (#[trigger] self.entries@[q]).token != token,
            decreases self.entries@.len() - p,
        {
            if self.entries[p].token == token {
                return Some(p);
            }
            p = p + 1;
        }
        None
    }

    /// Whether a session entry exists for this token.
    pub fn contains(&self, token: u128) -> (b: bool)
        ensures
            b == self@.contains_key(token),
    {
        proof {
            lemma_entries_map_domain(self.entries@, token);
        }
        self.find(token).is_some()
    }

    /// Inserts the entry for a fresh session: the stream it is bound
    /// to, its cursor (absent where the stream has no chat log), and
    /// `now` as its last access.
    pub fn insert_session(
        &mut self,
        token: u128,
        stream_id: i64,
        cursor: Option<LogCursor>,
        now: i64,
    )
        requires
            old(self).wf(),
            !old(self)@.contains_key(token),
            match cursor {
                Some(c) => c.wf(),
                None => true,
            },
        ensures
            final(self).wf(),
            final(self)@ == old(self)@.insert(
                token,
                EntryModel {
                    stream_id: stream_id as int,
                    last_access: now as int,
                    cursor: match cursor {
                        Some(c) => Some(c@),
                        None => None,
                    },
                },
            ),
    {
        proof {
            lemma_entries_map_domain(self.entries@, token);
        }
        let entry = CacheEntry { token, stream_id, last_access: now, cursor };
        let ghost s0 = self.entries@;
        self.entries.push(entry);
        proof {
            assert(self.entries@.drop_last() =~= s0);
            assert(forall|p: int| 0 <= p < s0.len() ==> (#[trigger] s0[p]).token != token);
            assert(tokens_unique(self.entries@)) by {
                assert(forall|m: int, n: int|
                    #![trigger self.entries@[m].token, self.entries@[n].token]
                    0 <= m < n < self.entries@.len() ==> self.entries@[m].token
                        != self.entries@[n].token);
            }
        }
    }

    /// Serves one window query on an existing session: bumps the
    /// entry's last access to `now`, and reads `[start, end]` through
    /// the session's cursor.  `None` means no such session exists (the
    /// cache is untouched); a session without a cursor answers with an
    /// empty result without touching anything else.
    pub fn query(&mut self, token: u128, start: i64, end: i64, now: i64) -> (r: Option<
        Result<Vec<Item>, ParseError>,
    >)
        requires
            old(self).wf(),
        ensures
            final(self).wf(),
            !old(self)@.contains_key(token) ==> r is None && final(self)@ == old(self)@,
            old(self)@.contains_key(token) ==> r is Some && ({
                let e = old(self)@[token];
                match e.cursor {
                    None => ({
                        &&& r matches Some(Ok(v)) && v@.len() == 0
                        &&& final(self)@ == old(self)@.insert(
                            token,
                            EntryModel {
                                stream_id: e.stream_id,
                                last_access: now as int,
                                cursor: None,
                            },
                        )
                    }),
                    Some(cm) => ({
                        let (wr, cm2) = window_step(cm, start as int, end as int);
                        &&& r matches Some(inner) && result_view(inner) == wr
                        &&& final(self)@ == old(self)@.insert(
                            token,
                            EntryModel {
                                stream_id: e.stream_id,
                                last_access: now as int,
                                cursor: Some(cm2),
                            },
                        )
                    }),
                }
            }),
    {
        let found = self.find(token);
        proof {
            lemma_entries_map_domain(self.entries@, token);
        }
        match found {
            None => None,
            Some(p) => {
                let ghost s0 = self.entries@;
                proof {
                    lemma_entries_map_get(s0, p as int);
                    lemma_entries_map_remove(s0, p as int);
                    lemma_tokens_unique_remove(s0, p as int);
                }
                let mut entry = self.entries.remove(p);
                entry.last_access = now;
                let taken = entry.cursor.take();
                let (result, back) = match taken {
                    Some(mut cur) => {
                        let rr = cur.get_between(start, end);
                        (rr, Some(cur))
                    },
                    None => (Ok(Vec::new()), None),
                };
                entry.cursor = back;
                let ghost s1 = self.entries@;
                self.entries.push(entry);
                proof {
                    assert(self.entries@.drop_last() =~= s1);
                    lemma_entries_map_domain(s1, token);
                    assert(forall|q: int| 0 <= q < s1.len() ==> (#[trigger] s1[q]).token != token);
                    assert(tokens_unique(self.entries@)) by {
                        assert(forall|m: int, n: int|
                            #![trigger self.entries@[m].token, self.entries@[n].token]
                            0 <= m < n < self.entries@.len() ==> self.entries@[m].token
                                != self.entries@[n].token);
                    }
                    assert(entries_map(s0).remove(token).insert(
                        token,
                        self.entries@.last().model(),
                    ) =~= entries_map(s0).insert(token, self.entries@.last().model()));
                }
                Some(result)
            },
        }
    }

    /// Removes every entry whose last access is older than `cutoff`,
    /// and reports the removed sessions as `(token, stream id)` pairs.
    /// An entry accessed at or after `cutoff` survives untouched.
    pub fn prune(&mut self, cutoff: i64) -> (removed: Vec<(u128, i64)>)
        requires
            old(self).wf(),
        ensures
            final(self).wf(),
            forall|t: u128| #[trigger]
                final(self)@.contains_key(t) <==> old(self)@.contains_key(t)
                    && old(self)@[t].last_access >= cutoff,
            forall|t: u128| #[trigger]
                final(self)@.contains_key(t) ==> final(self)@[t] == old(self)@[t],
            forall|idx: int|
                0 <= idx < removed@.len() ==> old(self)@.contains_key(
                    (#[trigger] removed@[idx]).0,
                ) && old(self)@[removed@[idx].0].last_access < cutoff && removed@[idx].1 as int
                    == old(self)@[removed@[idx].0].stream_id,
            forall|t: u128|
                old(self)@.contains_key(t) && old(self)@[t].last_access < cutoff ==> exists|idx: int|
                    0 <= idx < removed@.len() && (#[trigger] removed@[idx]).0 == t,
    {
        let ghost s0 = self.entries@;
        let mut drained: Vec<CacheEntry> = Vec::new();
        core::mem::swap(&mut drained, &mut self.entries);
        let mut rev = crate::merge::reversed(drained);
        let mut kept: Vec<CacheEntry> = Vec::new();
        let mut removed: Vec<(u128, i64)> = Vec::new();

        proof {
            assert(s0.take(0) =~= Seq::<CacheEntry>::empty());
            assert(s0.skip(0) =~= s0);
        }
        while rev.len() > 0
            invariant
                tokens_unique(s0),
                forall|p: int| 0 <= p < s0.len() ==> (#[trigger] s0[p]).wf(),
                rev@.len() <= s0.len(),
                rev@ == s0.skip(s0.len() - rev@.len()).reverse(),
                entries_map(kept@) == kept_map(s0.take(s0.len() - rev@.len()), cutoff),
                removed@ == removed_list(s0.take(s0.len() - rev@.len()), cutoff),
                tokens_unique(kept@),
                forall|idx: int| 0 <= idx < kept@.len() ==> (#[trigger] kept@[idx]).wf(),
                forall|idx: int|
                    0 <= idx < kept@.len() ==> exists|i: int|
                        0 <= i < s0.len() - rev@.len() && (#[trigger] kept@[idx]).token
                            == s0[i].token,
            decreases rev@.len(),
        {
            let ghost k = s0.len() - rev@.len();
            let entry = rev.pop().unwrap();
            proof {
                assert(entry == s0.skip(k).reverse()[s0.len() - k - 1]);
                assert(entry == s0[k]);
                assert(rev@ =~= s0.skip(k + 1).reverse());
                assert(s0.take(k + 1).drop_last() =~= s0.take(k));
                assert(s0.take(k + 1).last() == s0[k]);
            }
            if entry.last_access >= cutoff {
                let ghost old_kept = kept@;
                kept.push(entry);
                proof {
                    // the fresh token cannot stand in `kept` already
                    assert forall|idx: int| 0 <= idx < old_kept.len() implies (
                    #[trigger] old_kept[idx]).token != s0[k as int].token by {
                        let i = choose|i: int|
                            0 <= i < k && (#[trigger] old_kept[idx]).token == s0[i].token;
                        assert(s0[i].token != s0[k as int].token);
                    }
                    assert(kept@.drop_last() =~= old_kept);
                    assert(tokens_unique(kept@)) by {
                        assert(forall|m: int, n: int|
                            #![trigger kept@[m].token, kept@[n].token]
                            0 <= m < n < kept@.len() ==> kept@[m].token != kept@[n].token);
                    }
                    assert forall|idx: int| 0 <= idx < kept@.len() implies exists|i: int|
                        0 <= i < k + 1 && (#[trigger] kept@[idx]).token == s0[i].token by {
                        if idx < old_kept.len() {
                            let i = choose|i: int|
                                0 <= i < k && (#[trigger] old_kept[idx]).token == s0[i].token;
                            assert(kept@[idx].token == s0[i].token);
                        } else {
                            assert(kept@[idx].token == s0[k as int].token);
                        }
                    }
                }
            } else {
                removed.push((entry.token, entry.stream_id));
            }
        }
        self.entries = kept;
        proof {
            assert(s0.take(s0.len() as int) =~= s0);
            lemma_kept_map_char(s0, cutoff);
            lemma_removed_list_char(s0, cutoff);
        }
        removed
    }
}

} // verus!
