use vstd::prelude::*;

verus! {

use crate::InboundMessage;
use crate::text::norm_spec;
use crate::text::normalize;

/// How many of the most recent messages a fresh catch-up scan asks for when no
/// high-water mark is stored yet.
pub const CATCH_UP_PAGE_LIMIT: u64 = 100;

/// The views of a vector of keys.
pub open spec fn key_views(ks: Seq<String>) -> Seq<Seq<char>> {
    ks.map_values(|k: String| k@)
}

/// No key occurs twice.
pub open spec fn distinct_keys(ks: Seq<Seq<char>>) -> bool {
    forall|i: int, j: int| 0 <= i < j < ks.len() ==> #[trigger] ks[i] != #[trigger] ks[j]
}

/// Recording a key: already-seen keys are kept once, new keys go to the end.
pub open spec fn insert_key(keys: Seq<Seq<char>>, k: Seq<char>) -> Seq<Seq<char>> {
    if keys.contains(k) {
        keys
    } else {
        keys.push(k)
    }
}

/// The high-water mark only ever moves forward.
pub open spec fn advance_mark(mark: Option<u64>, id: u64) -> Option<u64> {
    match mark {
        Option::None => Option::Some(id),
        Option::Some(m) => if m >= id {
            Option::Some(m)
        } else {
            Option::Some(id)
        },
    }
}

/// The keys after replaying a page of history. Pages arrive newest first, so
/// replay walks the page from its last element (the oldest message) to its
/// first.
pub open spec fn page_keys(keys: Seq<Seq<char>>, page: Seq<InboundMessage>) -> Seq<Seq<char>>
    decreases page.len(),
{
    if page.len() == 0 {
        keys
    } else {
        page_keys(insert_key(keys, norm_spec(page.last().content@)), page.drop_last())
    }
}

/// The identifiers of the duplicate messages found while replaying a page,
/// oldest first.
pub open spec fn page_dups(keys: Seq<Seq<char>>, page: Seq<InboundMessage>) -> Seq<u64>
    decreases page.len(),
{
    if page.len() == 0 {
        Seq::empty()
    } else {
        let k = norm_spec(page.last().content@);
        let rest = page_dups(insert_key(keys, k), page.drop_last());
        if keys.contains(k) {
            seq![page.last().id] + rest
        } else {
            rest
        }
    }
}

/// What a catch-up scan asks the platform for: the history after the stored
/// high-water mark, or the most recent messages when no mark exists.
#[derive(Clone, Copy, PartialEq, Eq, Structural, Debug)]
pub enum FetchQuery {
    After { id: u64 },
    Latest { limit: u64 },
}

/// The deduplication cache: the set of canonical keys seen so far together
/// with the most recently processed message identifier.
pub struct DedupState {
    seen: Vec<String>,
    high_water_mark: Option<u64>,
}

impl DedupState {
    /// The canonical keys seen so far, in insertion order.
    pub closed spec fn seen_keys(self) -> Seq<Seq<char>> {
        key_views(self.seen@)
    }

    /// The most recently processed message identifier, if any.
    pub closed spec fn high_water(self) -> Option<u64> {
        self.high_water_mark
    }

    /// Whether a key has been seen.
    pub open spec fn has_key(self, k: Seq<char>) -> bool {
        self.seen_keys().contains(k)
    }

    /// Well-formed: no key is recorded twice.
    pub open spec fn wf(self) -> bool {
        distinct_keys(self.seen_keys())
    }

    /// A fresh, empty cache.
    pub fn empty() -> (s: Self)
        ensures
            s.wf(),
            s.seen_keys() == Seq::<Seq<char>>::empty(),
            s.high_water() is None,
    {
        let s = DedupState { seen: Vec::new(), high_water_mark: Option::None };
        proof {
            assert(s.seen_keys() =~= Seq::<Seq<char>>::empty());
        }
        s
    }

    /// A cache rebuilt from its persisted parts.
    pub fn from_parts(seen: Vec<String>, mark: Option<u64>) -> (s: Self)
        requires
            distinct_keys(key_views(seen@)),
        ensures
            s.wf(),
            s.seen_keys() == key_views(seen@),
            s.high_water() == mark,
    {
        DedupState { seen, high_water_mark: mark }
    }

    /// How many distinct keys have been seen.
    pub fn key_count(&self) -> (n: usize)
        ensures
            n == self.seen_keys().len(),
    {
        proof {
            assert(self.seen_keys().len() == self.seen@.len());
        }
        self.seen.len()
    }

    /// The key at the given insertion position.
    pub fn key_at(&self, i: usize) -> (k: &String)
        requires
            i < self.seen_keys().len(),
        ensures
            k@ == self.seen_keys()[i as int],
    {
        proof {
            assert(self.seen_keys().len() == self.seen@.len());
        }
        &self.seen[i]
    }

    /// The stored high-water mark.
    pub fn high_water_mark(&self) -> (m: Option<u64>)
        ensures
            m == self.high_water(),
    {
        self.high_water_mark
    }

    /// Records a key if it is absent and reports whether it was newly
    /// inserted; a key already present reports a duplicate and nothing
    /// changes. A key reports as new at most once over the cache's lifetime:
    /// once recorded it stays recorded.
    pub fn try_insert(&mut self, key: String) -> (newly: bool)
        requires
            old(self).wf(),
        ensures
            final(self).wf(),
            newly == !old(self).has_key(key@),
            final(self).seen_keys() == insert_key(old(self).seen_keys(), key@),
            final(self).high_water() == old(self).high_water(),
    {
        let n = self.seen.len();
        proof {
            assert(self.seen_keys().len() == self.seen@.len());
        }
        let mut i: usize = 0;
        while i < n
            invariant
                i <= n,
                old(self).wf(),
                *self == *old(self),
                n == self.seen@.len(),
                forall|j: int| 0 <= j < i ==> self.seen_keys()[j] != key@,
            decreases n - i,
        {
            proof {
                assert(self.seen_keys()[i as int] == self.seen@[i as int]@);
            }
            if self.seen[i] == key {
                proof {
                    assert(self.seen_keys()[i as int] == key@);
                    assert(old(self).has_key(key@));
                    assert(insert_key(old(self).seen_keys(), key@) == old(self).seen_keys());
                    assert forall|a: int, b: int|
                        0 <= a < b < self.seen_keys().len() implies self.seen_keys()[a]
                        != self.seen_keys()[b] by {
                        assert(old(self).seen_keys()[a] != old(self).seen_keys()[b]);
                    }
                }
                return false;
            }
            i = i + 1;
        }
        proof {
            assert(forall|j: int|
                0 <= j < self.seen_keys().len() ==> self.seen_keys()[j] != key@);
            assert(!old(self).has_key(key@));
        }
        let ghost pre = self.seen@;
        self.seen.push(key);
        proof {
            assert(final(self).seen_keys() =~= key_views(pre).push(key@));
            assert(final(self).seen_keys() == insert_key(old(self).seen_keys(), key@));
        }
        true
    }

    /// Records the most recently processed message identifier; the mark only
    /// moves forward.
    pub fn advance_high_water_mark(&mut self, id: u64)
        ensures
            final(self).seen_keys() == old(self).seen_keys(),
            final(self).high_water() == advance_mark(old(self).high_water(), id),
            old(self).wf() ==> final(self).wf(),
    {
        match self.high_water_mark {
            Option::Some(m) => {
                if m < id {
                    self.high_water_mark = Option::Some(id);
                }
            },
            Option::None => {
                self.high_water_mark = Option::Some(id);
            },
        }
        proof {
            assert(self.seen_keys() == old(self).seen_keys());
            if old(self).wf() {
                assert forall|i: int, j: int|
                    0 <= i < j < self.seen_keys().len() implies self.seen_keys()[i]
                    != self.seen_keys()[j] by {
                    assert(old(self).seen_keys()[i] != old(self).seen_keys()[j]);
                }
            }
        }
    }

    /// What the next catch-up fetch should ask for: only history after the
    /// stored high-water mark, never the full history, unless no mark exists
    /// yet.
    pub fn catch_up_query(&self) -> (q: FetchQuery)
        ensures
            q == match self.high_water() {
                Option::Some(id) => FetchQuery::After { id },
                Option::None => FetchQuery::Latest { limit: CATCH_UP_PAGE_LIMIT },
            },
    {
        match self.high_water_mark {
            Option::Some(id) => FetchQuery::After { id },
            Option::None => FetchQuery::Latest { limit: CATCH_UP_PAGE_LIMIT },
        }
    }

    /// Replays one page of history, oldest message first (pages arrive newest
    /// first), recording each key and reporting the identifiers of the
    /// duplicates, oldest first, for deletion. Afterwards the high-water mark
    /// stands at or after the newest message of the page.
    pub fn process_page(&mut self, page: &Vec<InboundMessage>) -> (dups: Vec<u64>)
        requires
            old(self).wf(),
        ensures
            final(self).wf(),
            final(self).seen_keys() == page_keys(old(self).seen_keys(), page@),
            dups@ == page_dups(old(self).seen_keys(), page@),
            final(self).high_water() == if page@.len() == 0 {
                old(self).high_water()
            } else {
                advance_mark(old(self).high_water(), page@[0].id)
            },
    {
        let ghost keys0 = old(self).seen_keys();
        let mut dups: Vec<u64> = Vec::new();
        let mut j: usize = page.len();
        proof {
            assert(page@.skip(page@.len() as int) =~= Seq::<InboundMessage>::empty());
        }
        while j > 0
            invariant
                j <= page@.len(),
                self.wf(),
                self.seen_keys() == page_keys(keys0, page@.skip(j as int)),
                dups@ == page_dups(keys0, page@.skip(j as int)),
                self.high_water() == old(self).high_water(),
            decreases j,
        {
            j = j - 1;
            let ghost before = self.seen_keys();
            proof {
                assert(page@.skip(j as int) =~= seq![page@[j as int]] + page@.skip(j as int + 1));
                lemma_page_cons(keys0, page@[j as int], page@.skip(j as int + 1));
            }
            let m = &page[j];
            let key = normalize(m.content.as_str());
            let newly = self.try_insert(key);
            if !newly {
                dups.push(m.id);
                proof {
                    assert(dups@ =~= page_dups(keys0, page@.skip(j as int + 1)) + seq![
                        page@[j as int].id,
                    ]);
                }
            } else {
                proof {
                    assert(dups@ == page_dups(keys0, page@.skip(j as int)));
                }
            }
        }
        proof {
            assert(page@.skip(0) =~= page@);
        }
        if page.len() > 0 {
            let newest = page[0].id;
            self.advance_high_water_mark(newest);
        }
        dups
    }
}

/// Recording a key keeps every key recorded before, records the given key,
/// and records nothing else.
pub proof fn lemma_insert_key_monotone(keys: Seq<Seq<char>>, k: Seq<char>, x: Seq<char>)
    ensures
        keys.contains(x) ==> insert_key(keys, k).contains(x),
        insert_key(keys, k).contains(k),
        insert_key(keys, k).contains(x) ==> keys.contains(x) || x == k,
{
    if keys.contains(k) {
    } else {
        if keys.contains(x) {
            let i = choose|i: int| 0 <= i < keys.len() && keys[i] == x;
            assert(keys.push(k)[i] == x);
        }
        assert(keys.push(k)[keys.len() as int] == k);
        if keys.push(k).contains(x) {
            let i = choose|i: int| 0 <= i < keys.push(k).len() && keys.push(k)[i] == x;
            if i < keys.len() {
                assert(keys[i] == x);
            } else {
                assert(x == k);
            }
        }
    }
}

/// A distinct key reports as new exactly once over the cache's lifetime: a
/// try-insert reports the key new exactly when it was absent; afterwards the
/// key is recorded, recording other keys never removes it, and recording it
/// again changes nothing -- so every later try-insert of the same key reports
/// a duplicate.
pub proof fn lemma_try_insert_true_once(keys: Seq<Seq<char>>, k: Seq<char>, later: Seq<char>)
    ensures
        insert_key(keys, k).contains(k),
        keys.contains(k) ==> insert_key(keys, k) == keys,
        keys.contains(k) ==> insert_key(keys, later).contains(k),
{
    lemma_insert_key_monotone(keys, k, k);
    lemma_insert_key_monotone(keys, later, k);
}

/// Replaying a page never removes a recorded key.
pub proof fn lemma_page_keys_monotone(
    keys: Seq<Seq<char>>,
    page: Seq<InboundMessage>,
    x: Seq<char>,
)
    requires
        keys.contains(x),
    ensures
        page_keys(keys, page).contains(x),
    decreases page.len(),
{
    if page.len() == 0 {
    } else {
        let k = norm_spec(page.last().content@);
        lemma_insert_key_monotone(keys, k, x);
        lemma_page_keys_monotone(insert_key(keys, k), page.drop_last(), x);
    }
}

/// After replaying a page, the key of every replayed message is recorded.
pub proof fn lemma_page_keys_covers(keys: Seq<Seq<char>>, page: Seq<InboundMessage>, j: int)
    requires
        0 <= j < page.len(),
    ensures
        page_keys(keys, page).contains(norm_spec(page[j].content@)),
    decreases page.len(),
{
    let k = norm_spec(page.last().content@);
    if j == page.len() - 1 {
        assert(page.last() == page[j]);
        lemma_insert_key_monotone(keys, k, k);
        lemma_page_keys_monotone(insert_key(keys, k), page.drop_last(), k);
    } else {
        assert(page.drop_last()[j] == page[j]);
        lemma_page_keys_covers(insert_key(keys, k), page.drop_last(), j);
    }
}

/// Replaying a page whose keys are all recorded already changes nothing.
pub proof fn lemma_page_keys_stable(keys: Seq<Seq<char>>, page: Seq<InboundMessage>)
    requires
        forall|j: int|
            0 <= j < page.len() ==> keys.contains(norm_spec((#[trigger] page[j]).content@)),
    ensures
        page_keys(keys, page) == keys,
    decreases page.len(),
{
    if page.len() == 0 {
    } else {
        assert(page.last() == page[page.len() - 1]);
        assert(keys.contains(norm_spec(page.last().content@)));
        assert(insert_key(keys, norm_spec(page.last().content@)) == keys);
        assert(forall|j: int|
            0 <= j < page.drop_last().len() ==> #[trigger] page.drop_last()[j] == page[j]);
        lemma_page_keys_stable(keys, page.drop_last());
    }
}

/// Catch-up is idempotent: replaying a page of history a second time leaves
/// the recorded keys unchanged, re-advancing the high-water mark to the same
/// message leaves the mark unchanged, and a catch-up that fetches no new
/// messages (an empty page) changes nothing at all and deletes nothing.
pub proof fn lemma_catch_up_idempotent(
    keys: Seq<Seq<char>>,
    page: Seq<InboundMessage>,
    mark: Option<u64>,
    id: u64,
)
    ensures
        page_keys(page_keys(keys, page), page) == page_keys(keys, page),
        advance_mark(advance_mark(mark, id), id) == advance_mark(mark, id),
        page_keys(keys, Seq::<InboundMessage>::empty()) == keys,
        page_dups(keys, Seq::<InboundMessage>::empty()) == Seq::<u64>::empty(),
{
    let r = page_keys(keys, page);
    assert forall|j: int|
        0 <= j < page.len() implies r.contains(norm_spec((#[trigger] page[j]).content@)) by {
        lemma_page_keys_covers(keys, page, j);
    }
    lemma_page_keys_stable(r, page);
}

/// One step of page replay: replaying `[m] + rest` is replaying `rest` and
/// then recording `m`, whose identifier is reported exactly when its key was
/// already present.
pub proof fn lemma_page_cons(keys: Seq<Seq<char>>, m: InboundMessage, rest: Seq<InboundMessage>)
    ensures
        page_keys(keys, seq![m] + rest) == insert_key(
            page_keys(keys, rest),
            norm_spec(m.content@),
        ),
        page_dups(keys, seq![m] + rest) == page_dups(keys, rest) + (if page_keys(
            keys,
            rest,
        ).contains(norm_spec(m.content@)) {
            seq![m.id]
        } else {
            Seq::<u64>::empty()
        }),
    decreases rest.len(),
{
    let q = seq![m] + rest;
    if rest.len() == 0 {
        let k = norm_spec(m.content@);
        assert(q.len() == 1);
        assert(q.last() == m);
        assert(q.drop_last() =~= Seq::<InboundMessage>::empty());
        assert(page_keys(keys, rest) == keys);
        assert(page_dups(keys, rest) == Seq::<u64>::empty());
        assert(page_keys(insert_key(keys, k), Seq::<InboundMessage>::empty()) == insert_key(
            keys,
            k,
        ));
        assert(page_dups(insert_key(keys, k), Seq::<InboundMessage>::empty())
            == Seq::<u64>::empty());
        if keys.contains(norm_spec(m.content@)) {
            assert(page_dups(keys, q) =~= page_dups(keys, rest) + seq![m.id]);
        } else {
            assert(page_dups(keys, q) =~= page_dups(keys, rest) + Seq::<u64>::empty());
        }
    } else {
        let k = norm_spec(rest.last().content@);
        assert(q.last() == rest.last());
        assert(q.drop_last() =~= seq![m] + rest.drop_last());
        lemma_page_cons(insert_key(keys, k), m, rest.drop_last());
        assert(page_keys(keys, q) == insert_key(
            page_keys(insert_key(keys, k), rest.drop_last()),
            norm_spec(m.content@),
        ));
        assert(page_keys(keys, rest) == page_keys(insert_key(keys, k), rest.drop_last()));
        let pre = if keys.contains(k) {
            seq![rest.last().id]
        } else {
            Seq::<u64>::empty()
        };
        assert(page_dups(keys, q) == pre + page_dups(insert_key(keys, k), q.drop_last()));
        assert(page_dups(keys, rest) == pre + page_dups(insert_key(keys, k), rest.drop_last()));
        assert(pre + (page_dups(insert_key(keys, k), rest.drop_last()) + (if page_keys(
            keys,
            rest,
        ).contains(norm_spec(m.content@)) {
            seq![m.id]
        } else {
            Seq::<u64>::empty()
        })) =~= (pre + page_dups(insert_key(keys, k), rest.drop_last())) + (if page_keys(
            keys,
            rest,
        ).contains(norm_spec(m.content@)) {
            seq![m.id]
        } else {
            Seq::<u64>::empty()
        }));
    }
}

} // verus!
