//! The correlator: matches asynchronous responses to the call that
//! requested them.
//!
//! Each call is given a fresh id from a monotonic counter and a pending
//! entry. A response resolves exactly the entry carrying its id; responses
//! may arrive in any order. On process death every pending entry is failed
//! at once and the table is cleared.

use vstd::prelude::*;

verus! {

/// One outstanding call: its id and the method it invoked. The waiting
/// caller's completion signal and result slot live with the host runtime,
/// keyed by the id.
#[derive(Debug, PartialEq, Eq)]
pub struct PendingRequest {
    pub id: u64,
    pub method: Vec<u8>,
}

/// Whether some entry carries `id`.
pub open spec fn has_id(s: Seq<PendingRequest>, id: u64) -> bool
    decreases s.len(),
{
    if s.len() == 0 {
        false
    } else if s[0].id == id {
        true
    } else {
        has_id(s.drop_first(), id)
    }
}

/// The first entry carrying `id`, if any.
pub open spec fn spec_find(s: Seq<PendingRequest>, id: u64) -> Option<PendingRequest>
    decreases s.len(),
{
    if s.len() == 0 {
        None
    } else if s[0].id == id {
        Some(s[0])
    } else {
        spec_find(s.drop_first(), id)
    }
}

/// The table with the first entry carrying `id` removed.
pub open spec fn spec_remove_id(s: Seq<PendingRequest>, id: u64) -> Seq<PendingRequest>
    decreases s.len(),
{
    if s.len() == 0 {
        s
    } else if s[0].id == id {
        s.drop_first()
    } else {
        seq![s[0]] + spec_remove_id(s.drop_first(), id)
    }
}

/// Ids are unique among in-flight entries and all below the counter.
pub open spec fn wf_pending(s: Seq<PendingRequest>, next: u64) -> bool {
    &&& (forall|i: int, j: int| 0 <= i < j < s.len() ==> (#[trigger] s[i].id) != (
    #[trigger] s[j].id))
    &&& (forall|i: int| 0 <= i < s.len() ==> (#[trigger] s[i].id) < next)
}

/// Allocates request ids and tracks outstanding requests until each is
/// resolved by a matching response or failed in bulk.
pub struct Correlator {
    next_id: u64,
    pending: Vec<PendingRequest>,
}

impl Correlator {
    /// The outstanding entries, oldest first.
    pub closed spec fn pending(&self) -> Seq<PendingRequest> {
        self.pending@
    }

    /// The id the next submission will take.
    pub closed spec fn next(&self) -> u64 {
        self.next_id
    }

    /// The table's invariant.
    pub open spec fn wf(&self) -> bool {
        wf_pending(self.pending(), self.next())
    }

    /// An empty table; ids start at one so that zero never occurs on the
    /// wire and a response carrying id zero is always unmatched.
    pub fn new() -> (r: Correlator)
        ensures
            r.pending() == Seq::<PendingRequest>::empty(),
            r.next() == 1u64,
            r.wf(),
    {
        Correlator { next_id: 1, pending: Vec::new() }
    }

    /// The id the next submission will take.
    pub fn next_id(&self) -> (r: u64)
        ensures
            r == self.next(),
    {
        self.next_id
    }

    /// Whether a call with this id is outstanding.
    pub fn is_pending(&self, id: u64) -> (r: bool)
        ensures
            r == has_id(self.pending(), id),
    {
        proof {
            assert(self.pending@.skip(0) =~= self.pending@);
        }
        let mut j: usize = 0;
        while j < self.pending.len()
            invariant
                j <= self.pending@.len(),
                has_id(self.pending@, id) == has_id(self.pending@.skip(j as int), id),
            decreases self.pending@.len() - j,
        {
            proof {
                let rest = self.pending@.skip(j as int);
                assert(rest[0] == self.pending@[j as int]);
                assert(rest.drop_first() =~= self.pending@.skip(j + 1));
            }
            if self.pending[j].id == id {
                return true;
            }
            j = j + 1;
        }
        false
    }

    /// Allocates the next id and inserts a pending entry for it.
    ///
    /// The counter only grows, so every id handed out is fresh: it differs
    /// from every id still in flight.
    pub fn submit(&mut self, method: Vec<u8>) -> (id: u64)
        requires
            old(self).wf(),
            old(self).next() < u64::MAX,
        ensures
            final(self).wf(),
            id == old(self).next(),
            final(self).next() == id + 1,
            final(self).pending().len() == old(self).pending().len() + 1,
            final(self).pending().drop_last() == old(self).pending(),
            final(self).pending().last().id == id,
            final(self).pending().last().method@ == method@,
            has_id(final(self).pending(), id),
    {
        let id = self.next_id;
        self.pending.push(PendingRequest { id, method });
        self.next_id = self.next_id + 1;
        proof {
            assert(final(self).pending().drop_last() =~= old(self).pending());
            lemma_has_id_last(final(self).pending(), id);
        }
        id
    }

    /// Resolves the entry carrying `id`, removing and returning it; an
    /// unknown or already-resolved id leaves the table unchanged and
    /// returns nothing, so a stray response harms no other call.
    pub fn resolve(&mut self, id: u64) -> (r: Option<PendingRequest>)
        requires
            old(self).wf(),
        ensures
            final(self).wf(),
            final(self).next() == old(self).next(),
            r == spec_find(old(self).pending(), id),
            final(self).pending() == spec_remove_id(old(self).pending(), id),
            (match r {
                Some(p) => p.id == id && has_id(old(self).pending(), id),
                None => !has_id(old(self).pending(), id),
            }),
    {
        let mut j: usize = 0;
        while j < self.pending.len()
            invariant
                *self == *old(self),
                old(self).wf(),
                j <= self.pending@.len(),
                forall|t: int| 0 <= t < j ==> (#[trigger] self.pending@[t].id) != id,
            decreases self.pending@.len() - j,
        {
            if self.pending[j].id == id {
                proof {
                    lemma_remove_id_at(self.pending@, id, j as int);
                }
                let p = self.pending.remove(j);
                proof {
                    lemma_wf_remove(old(self).pending(), old(self).next(), j as int);
                }
                return Some(p);
            }
            j = j + 1;
        }
        proof {
            lemma_absent(self.pending@, id);
        }
        None
    }

    /// Fails every outstanding call at once: returns all pending entries
    /// and clears the table. The counter is kept, so ids stay unique
    /// across a crash and a later restart.
    pub fn fail_all(&mut self) -> (r: Vec<PendingRequest>)
        ensures
            r@ == old(self).pending(),
            final(self).pending() == Seq::<PendingRequest>::empty(),
            final(self).next() == old(self).next(),
            old(self).wf() ==> final(self).wf(),
    {
        let mut out: Vec<PendingRequest> = Vec::new();
        core::mem::swap(&mut self.pending, &mut out);
        out
    }
}

/// A pushed entry is found by its id.
proof fn lemma_has_id_last(s: Seq<PendingRequest>, id: u64)
    requires
        s.len() > 0,
        s.last().id == id,
    ensures
        has_id(s, id),
    decreases s.len(),
{
    if s[0].id != id {
        assert(s.drop_first().last() == s.last());
        lemma_has_id_last(s.drop_first(), id);
    }
}

/// `spec_find` answers exactly when `has_id` does, with the id asked for.
pub proof fn lemma_find_has_id(s: Seq<PendingRequest>, id: u64)
    ensures
        (spec_find(s, id) is Some) == has_id(s, id),
        (match spec_find(s, id) {
            Some(p) => p.id == id,
            None => true,
        }),
    decreases s.len(),
{
    if s.len() > 0 && s[0].id != id {
        lemma_find_has_id(s.drop_first(), id);
    }
}

/// When no entry carries the id, nothing is found or removed.
proof fn lemma_absent(s: Seq<PendingRequest>, id: u64)
    requires
        forall|t: int| 0 <= t < s.len() ==> (#[trigger] s[t].id) != id,
    ensures
        spec_find(s, id) is None,
        spec_remove_id(s, id) == s,
        !has_id(s, id),
    decreases s.len(),
{
    if s.len() > 0 {
        assert(forall|t: int| 0 <= t < s.drop_first().len() ==> (
        #[trigger] s.drop_first()[t].id) != id);
        lemma_absent(s.drop_first(), id);
        assert(spec_remove_id(s, id) =~= seq![s[0]] + s.drop_first());
        assert(seq![s[0]] + s.drop_first() =~= s);
    }
}

/// Removing the first match at its index is removal of that index.
proof fn lemma_remove_id_at(s: Seq<PendingRequest>, id: u64, i: int)
    requires
        0 <= i < s.len(),
        s[i].id == id,
        forall|t: int| 0 <= t < i ==> (#[trigger] s[t].id) != id,
    ensures
        spec_find(s, id) == Some(s[i]),
        spec_remove_id(s, id) == s.remove(i),
        has_id(s, id),
    decreases i,
{
    if i == 0 {
        assert(spec_remove_id(s, id) == s.drop_first());
        assert(s.remove(0) =~= s.drop_first());
    } else {
        assert(s.drop_first()[i - 1] == s[i]);
        assert(forall|t: int| 0 <= t < i - 1 ==> (#[trigger] s.drop_first()[t].id) != id);
        lemma_remove_id_at(s.drop_first(), id, i - 1);
        assert(spec_remove_id(s, id) == seq![s[0]] + s.drop_first().remove(i - 1));
        assert(s.remove(i) =~= seq![s[0]] + s.drop_first().remove(i - 1));
    }
}

/// Removing an index keeps ids unique and below the counter.
proof fn lemma_wf_remove(s: Seq<PendingRequest>, next: u64, i: int)
    requires
        wf_pending(s, next),
        0 <= i < s.len(),
    ensures
        wf_pending(s.remove(i), next),
{
    let r = s.remove(i);
    assert(forall|t: int| 0 <= t < r.len() ==> r[t] == (if t < i {
        s[t]
    } else {
        s[t + 1]
    }));
}

/// A response for an id nobody is waiting on changes nothing.
pub proof fn lemma_remove_id_absent(s: Seq<PendingRequest>, id: u64)
    requires
        !has_id(s, id),
    ensures
        spec_remove_id(s, id) == s,
        spec_find(s, id) is None,
    decreases s.len(),
{
    if s.len() > 0 {
        lemma_remove_id_absent(s.drop_first(), id);
        assert(spec_remove_id(s, id) =~= seq![s[0]] + s.drop_first());
        assert(seq![s[0]] + s.drop_first() =~= s);
    }
}

/// A call resolves at most once: with unique ids, the entry removed by a
/// resolution is gone, so a second response carrying the same id matches
/// nothing — never both, never a duplicate delivery.
pub proof fn lemma_resolved_only_once(s: Seq<PendingRequest>, next: u64, id: u64)
    requires
        wf_pending(s, next),
    ensures
        !has_id(spec_remove_id(s, id), id),
    decreases s.len(),
{
    if s.len() > 0 {
        if s[0].id == id {
            if has_id(s.drop_first(), id) {
                lemma_has_id_gives_index(s.drop_first(), id);
                let i = choose|i: int| 0 <= i < s.drop_first().len() && (
                #[trigger] s.drop_first()[i].id) == id;
                assert(s[i + 1].id == s[0].id);
            }
        } else {
            assert(wf_pending(s.drop_first(), next)) by {
                assert(forall|i: int, j: int| 0 <= i < j < s.drop_first().len()
                    ==> s.drop_first()[i] == s[i + 1] && s.drop_first()[j] == s[j + 1]);
                assert(forall|i: int| 0 <= i < s.drop_first().len() ==> s.drop_first()[i]
                    == s[i + 1]);
            }
            lemma_resolved_only_once(s.drop_first(), next, id);
            let r = spec_remove_id(s, id);
            assert(r == seq![s[0]] + spec_remove_id(s.drop_first(), id));
            assert(r[0] == s[0]);
            assert(r.drop_first() =~= spec_remove_id(s.drop_first(), id));
        }
    }
}

/// A carried id names an index.
proof fn lemma_has_id_gives_index(s: Seq<PendingRequest>, id: u64)
    requires
        has_id(s, id),
    ensures
        exists|i: int| 0 <= i < s.len() && (#[trigger] s[i].id) == id,
    decreases s.len(),
{
    if s[0].id == id {
        assert(0 <= 0 < s.len() && s[0].id == id);
    } else {
        lemma_has_id_gives_index(s.drop_first(), id);
        let i = choose|i: int| 0 <= i < s.drop_first().len() && (#[trigger] s.drop_first()[
            i].id) == id;
        assert(s[i + 1].id == id);
    }
}

/// Resolving one call never changes what another call will receive:
/// looking up `b` is unaffected by removing `a` when the two differ.
pub proof fn lemma_resolution_independent(s: Seq<PendingRequest>, a: u64, b: u64)
    requires
        a != b,
    ensures
        spec_find(spec_remove_id(s, a), b) == spec_find(s, b),
        has_id(spec_remove_id(s, a), b) == has_id(s, b),
    decreases s.len(),
{
    lemma_find_has_id(s, b);
    lemma_find_has_id(spec_remove_id(s, a), b);
    if s.len() > 0 {
        if s[0].id == a {
        } else if s[0].id == b {
            assert(spec_remove_id(s, a)[0] == s[0]);
        } else {
            lemma_resolution_independent(s.drop_first(), a, b);
            assert(spec_remove_id(s, a)[0] == s[0]);
            assert(spec_remove_id(s, a).drop_first() =~= spec_remove_id(s.drop_first(), a));
        }
    }
}

/// Responses addressed to two distinct calls may land in either order:
/// the table left after both resolutions is the same.
pub proof fn lemma_resolution_commutes(s: Seq<PendingRequest>, a: u64, b: u64)
    requires
        a != b,
    ensures
        spec_remove_id(spec_remove_id(s, a), b) == spec_remove_id(spec_remove_id(s, b), a),
    decreases s.len(),
{
    if s.len() > 0 {
        if s[0].id == a {
            if has_id(s.drop_first(), b) {
            }
            assert(spec_remove_id(spec_remove_id(s, b), a) =~= spec_remove_id(
                spec_remove_id(s, a), b)) by {
                if s.drop_first().len() >= 0 {
                    assert(spec_remove_id(s, b) =~= seq![s[0]] + spec_remove_id(s.drop_first(),
                        b));
                    assert(spec_remove_id(spec_remove_id(s, b), a) =~= spec_remove_id(
                        s.drop_first(), b));
                }
            }
        } else if s[0].id == b {
            assert(spec_remove_id(spec_remove_id(s, a), b) =~= spec_remove_id(
                spec_remove_id(s, b), a)) by {
                assert(spec_remove_id(s, a) =~= seq![s[0]] + spec_remove_id(s.drop_first(),
                    a));
                assert(spec_remove_id(spec_remove_id(s, a), b) =~= spec_remove_id(
                    s.drop_first(), a));
            }
        } else {
            lemma_resolution_commutes(s.drop_first(), a, b);
            assert(spec_remove_id(spec_remove_id(s, a), b) =~= seq![s[0]] + spec_remove_id(
                spec_remove_id(s.drop_first(), a), b)) by {
                assert(spec_remove_id(s, a) =~= seq![s[0]] + spec_remove_id(s.drop_first(),
                    a));
                assert(spec_remove_id(s, a)[0] == s[0]);
                assert(spec_remove_id(s, a).drop_first() =~= spec_remove_id(s.drop_first(),
                    a));
            }
            assert(spec_remove_id(spec_remove_id(s, b), a) =~= seq![s[0]] + spec_remove_id(
                spec_remove_id(s.drop_first(), b), a)) by {
                assert(spec_remove_id(s, b) =~= seq![s[0]] + spec_remove_id(s.drop_first(),
                    b));
                assert(spec_remove_id(s, b)[0] == s[0]);
                assert(spec_remove_id(s, b).drop_first() =~= spec_remove_id(s.drop_first(),
                    b));
            }
        }
    }
}

} // verus!
