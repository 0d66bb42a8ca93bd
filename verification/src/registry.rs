//! The relay server's registry of live connections.
//!
//! Each accepted connection gets a monotonically increasing identifier that
//! is never reused. The registry records the identifiers of the live
//! connections; the I/O layer keeps the socket write half and the read task
//! of each connection keyed by that identifier. A connection is removed
//! exactly once, either when its read loop fails or when a fan-out write to
//! it fails; removal of one connection never disturbs the others.

use vstd::prelude::*;

verus! {

/// No identifier occurs twice.
pub open spec fn unique_ids(s: Seq<u64>) -> bool {
    forall|i: int, j: int| 0 <= i < j < s.len() ==> s[i] != s[j]
}

/// The identifiers with a `true` write result, in order.
pub open spec fn spec_kept(live: Seq<u64>, ok: Seq<bool>) -> Seq<u64>
    recommends
        ok.len() == live.len(),
    decreases live.len(),
{
    if live.len() == 0 {
        Seq::empty()
    } else if ok[live.len() - 1] {
        spec_kept(live.drop_last(), ok.drop_last()).push(live.last())
    } else {
        spec_kept(live.drop_last(), ok.drop_last())
    }
}

/// The identifiers with a `false` write result, in order.
pub open spec fn spec_dropped(live: Seq<u64>, ok: Seq<bool>) -> Seq<u64>
    recommends
        ok.len() == live.len(),
    decreases live.len(),
{
    if live.len() == 0 {
        Seq::empty()
    } else if ok[live.len() - 1] {
        spec_dropped(live.drop_last(), ok.drop_last())
    } else {
        spec_dropped(live.drop_last(), ok.drop_last()).push(live.last())
    }
}

/// How many write results succeeded.
pub open spec fn spec_count_true(ok: Seq<bool>) -> int
    decreases ok.len(),
{
    if ok.len() == 0 {
        0
    } else {
        spec_count_true(ok.drop_last()) + if ok.last() {
            1int
        } else {
            0int
        }
    }
}

/// The identifiers left after removing `id`, in order.
pub open spec fn spec_removed(live: Seq<u64>, id: u64) -> Seq<u64>
    decreases live.len(),
{
    if live.len() == 0 {
        Seq::empty()
    } else if live.last() == id {
        spec_removed(live.drop_last(), id)
    } else {
        spec_removed(live.drop_last(), id).push(live.last())
    }
}

/// Registry consistency: splitting the live set by per-connection write
/// results keeps exactly the successes and removes exactly the failures,
/// the two parts cover the live set, stay unique, and do not overlap.
pub proof fn lemma_registry_consistency(live: Seq<u64>, ok: Seq<bool>)
    requires
        ok.len() == live.len(),
    ensures
        spec_kept(live, ok).len() == spec_count_true(ok),
        spec_dropped(live, ok).len() == live.len() - spec_count_true(ok),
        forall|x: u64| #[trigger] spec_kept(live, ok).contains(x) ==> live.contains(x),
        forall|x: u64| #[trigger] spec_dropped(live, ok).contains(x) ==> live.contains(x),
        unique_ids(live) ==> unique_ids(spec_kept(live, ok)),
        unique_ids(live) ==> forall|x: u64|
            !(#[trigger] spec_kept(live, ok).contains(x) && spec_dropped(live, ok).contains(x)),
    decreases live.len(),
{
    if live.len() == 0 {
    } else {
        let lv = live.drop_last();
        let okv = ok.drop_last();
        lemma_registry_consistency(lv, okv);
        assert forall|x: u64| #[trigger] lv.contains(x) implies live.contains(x) by {
            let w = choose|w: int| 0 <= w < lv.len() && lv[w] == x;
            assert(live[w] == x);
        }
        assert(live.contains(live.last())) by {
            assert(live[live.len() - 1] == live.last());
        }
        if unique_ids(live) {
            assert(unique_ids(lv));
            assert(!lv.contains(live.last())) by {
                if lv.contains(live.last()) {
                    let w = choose|w: int| 0 <= w < lv.len() && lv[w] == live.last();
                    assert(live[w] == live[live.len() - 1]);
                }
            }
            if ok[live.len() - 1] {
                let kept = spec_kept(live, ok);
                assert(kept == spec_kept(lv, okv).push(live.last()));
                assert forall|i: int, j: int| 0 <= i < j < kept.len() implies kept[i]
                    != kept[j] by {
                    if j < kept.len() - 1 {
                        assert(spec_kept(lv, okv)[i] != spec_kept(lv, okv)[j]);
                    } else {
                        assert(spec_kept(lv, okv).contains(kept[i]));
                    }
                }
            }
        }
        assert forall|x: u64| #[trigger] spec_kept(live, ok).contains(x) implies live.contains(
            x,
        ) by {
            let kept = spec_kept(live, ok);
            let w = choose|w: int| 0 <= w < kept.len() && kept[w] == x;
            if ok[live.len() - 1] && w == kept.len() - 1 {
            } else {
                assert(spec_kept(lv, okv)[w] == x);
                assert(spec_kept(lv, okv).contains(x));
            }
        }
        assert forall|x: u64| #[trigger] spec_dropped(live, ok).contains(x) implies live.contains(
            x,
        ) by {
            let dropped = spec_dropped(live, ok);
            let w = choose|w: int| 0 <= w < dropped.len() && dropped[w] == x;
            if !ok[live.len() - 1] && w == dropped.len() - 1 {
            } else {
                assert(spec_dropped(lv, okv)[w] == x);
                assert(spec_dropped(lv, okv).contains(x));
            }
        }
        if unique_ids(live) {
            assert forall|x: u64|
                !(#[trigger] spec_kept(live, ok).contains(x) && spec_dropped(live, ok).contains(
                    x,
                )) by {
                if spec_kept(live, ok).contains(x) && spec_dropped(live, ok).contains(x) {
                    let kept = spec_kept(live, ok);
                    let dropped = spec_dropped(live, ok);
                    let wk = choose|w: int| 0 <= w < kept.len() && kept[w] == x;
                    let wd = choose|w: int| 0 <= w < dropped.len() && dropped[w] == x;
                    if ok[live.len() - 1] {
                        assert(dropped == spec_dropped(lv, okv));
                        assert(spec_dropped(lv, okv).contains(x));
                        assert(lv.contains(x));
                        if wk == kept.len() - 1 {
                            assert(x == live.last());
                        } else {
                            assert(spec_kept(lv, okv)[wk] == x);
                            assert(spec_kept(lv, okv).contains(x));
                        }
                    } else {
                        assert(kept == spec_kept(lv, okv));
                        assert(spec_kept(lv, okv).contains(x));
                        assert(lv.contains(x));
                        if wd == dropped.len() - 1 {
                            assert(x == live.last());
                        } else {
                            assert(spec_dropped(lv, okv)[wd] == x);
                            assert(spec_dropped(lv, okv).contains(x));
                        }
                    }
                }
            }
        }
    }
}

/// Removing one identifier keeps every other, in order, exactly once each.
pub proof fn lemma_removed_properties(live: Seq<u64>, id: u64)
    ensures
        forall|x: u64| #[trigger] spec_removed(live, id).contains(x) <==> live.contains(x) && x
            != id,
        unique_ids(live) ==> unique_ids(spec_removed(live, id)),
        spec_removed(live, id).len() <= live.len(),
        unique_ids(live) && live.contains(id) ==> spec_removed(live, id).len() == live.len() - 1,
        !live.contains(id) ==> spec_removed(live, id).len() == live.len(),
    decreases live.len(),
{
    if live.len() == 0 {
    } else {
        let lv = live.drop_last();
        lemma_removed_properties(lv, id);
        let rem = spec_removed(live, id);
        let remv = spec_removed(lv, id);
        assert forall|x: u64| #[trigger] live.contains(x) implies lv.contains(x) || x
            == live.last() by {
            let w = choose|w: int| 0 <= w < live.len() && live[w] == x;
            if w < live.len() - 1 {
                assert(lv[w] == x);
            }
        }
        assert forall|x: u64| #[trigger] lv.contains(x) implies live.contains(x) by {
            let w = choose|w: int| 0 <= w < lv.len() && lv[w] == x;
            assert(live[w] == x);
        }
        assert(live[live.len() - 1] == live.last());
        assert(live.contains(live.last()));
        if unique_ids(live) {
            assert(unique_ids(lv));
            assert(!lv.contains(live.last())) by {
                if lv.contains(live.last()) {
                    let w = choose|w: int| 0 <= w < lv.len() && lv[w] == live.last();
                    assert(live[w] == live[live.len() - 1]);
                }
            }
        }
        if live.last() == id {
            assert(rem == remv);
            assert forall|x: u64| #[trigger] rem.contains(x) <==> live.contains(x) && x != id by {
                if rem.contains(x) {
                    assert(lv.contains(x) && x != id);
                    assert(live.contains(x));
                }
                if live.contains(x) && x != id {
                    assert(lv.contains(x));
                    assert(remv.contains(x));
                }
            }
        } else {
            assert(rem == remv.push(live.last()));
            assert(rem[rem.len() - 1] == live.last());
            assert(rem.contains(live.last()));
            assert forall|x: u64| #[trigger] rem.contains(x) implies remv.contains(x) || x
                == live.last() by {
                let w = choose|w: int| 0 <= w < rem.len() && rem[w] == x;
                if w < rem.len() - 1 {
                    assert(remv[w] == x);
                }
            }
            assert forall|x: u64| #[trigger] remv.contains(x) implies rem.contains(x) by {
                let w = choose|w: int| 0 <= w < remv.len() && remv[w] == x;
                assert(rem[w] == x);
            }
            assert forall|x: u64| #[trigger] rem.contains(x) <==> live.contains(x) && x != id by {
                if rem.contains(x) {
                    if x == live.last() {
                    } else {
                        assert(remv.contains(x));
                        assert(lv.contains(x) && x != id);
                        assert(live.contains(x));
                    }
                }
                if live.contains(x) && x != id {
                    if x == live.last() {
                        assert(rem.contains(x));
                    } else {
                        assert(lv.contains(x));
                        assert(remv.contains(x));
                        assert(rem.contains(x));
                    }
                }
            }
            if unique_ids(live) {
                assert forall|i: int, j: int| 0 <= i < j < rem.len() implies rem[i] != rem[j] by {
                    if j < rem.len() - 1 {
                        assert(remv[i] != remv[j]);
                    } else {
                        assert(remv.contains(rem[i]));
                        assert(lv.contains(rem[i]));
                    }
                }
            }
        }
    }
}

/// The live set of the relay server: connection identifiers in insertion
/// order, and the next identifier to hand out.
pub struct Registry {
    next_id: u64,
    live: Vec<u64>,
}

impl View for Registry {
    type V = Seq<u64>;

    closed spec fn view(&self) -> Seq<u64> {
        self.live@
    }
}

impl Registry {
    /// The next identifier to be assigned; every identifier ever assigned is
    /// below it, so none is ever reused.
    pub closed spec fn next(&self) -> int {
        self.next_id as int
    }

    /// Identifiers are unique and all below the allocation counter.
    pub open spec fn wf(&self) -> bool {
        &&& unique_ids(self@)
        &&& forall|k: int| 0 <= k < self@.len() ==> #[trigger] self@[k] < self.next()
    }

    /// An empty registry.
    pub fn new() -> (r: Registry)
        ensures
            r@ == Seq::<u64>::empty(),
            r.next() == 0,
            r.wf(),
    {
        Registry { next_id: 0, live: Vec::new() }
    }

    /// Assigns the identifier for a newly accepted connection. Identifiers
    /// grow monotonically and are never reused.
    pub fn alloc_id(&mut self) -> (id: u64)
        requires
            old(self).wf(),
            old(self).next() < u64::MAX,
        ensures
            final(self).wf(),
            id == old(self).next(),
            final(self).next() == old(self).next() + 1,
            final(self)@ == old(self)@,
            !final(self)@.contains(id),
    {
        let id = self.next_id;
        self.next_id = self.next_id + 1;
        proof {
            if self@.contains(id) {
                let w = choose|w: int| 0 <= w < self@.len() && self@[w] == id;
            }
        }
        id
    }

    /// Inserts the record of a connection whose identifier was just
    /// assigned.
    pub fn push_stream(&mut self, id: u64)
        requires
            old(self).wf(),
            id < old(self).next(),
            !old(self)@.contains(id),
        ensures
            final(self).wf(),
            final(self)@ == old(self)@.push(id),
            final(self).next() == old(self).next(),
    {
        self.live.push(id);
        proof {
            assert forall|i: int, j: int| 0 <= i < j < self@.len() implies self@[i] != self@[j] by {
                if j == self@.len() - 1 {
                    assert(old(self)@.contains(old(self)@[i]));
                }
            }
        }
    }

    /// The value of the allocation counter; `alloc_id` must not be called
    /// once it has reached the largest identifier.
    pub fn next_id_value(&self) -> (r: u64)
        ensures
            r as int == self.next(),
    {
        self.next_id
    }

    /// How many connections are live.
    pub fn len(&self) -> (n: usize)
        ensures
            n == self@.len(),
    {
        self.live.len()
    }

    /// Whether the connection with this identifier is live.
    pub fn contains(&self, id: u64) -> (r: bool)
        ensures
            r == self@.contains(id),
    {
        let n = self.live.len();
        let mut k: usize = 0;
        while k < n
            invariant
                k <= n,
                n == self@.len(),
                forall|i: int| 0 <= i < k ==> self@[i] != id,
            decreases n - k,
        {
            if self.live[k] == id {
                proof {
                    assert(self@[k as int] == id);
                }
                return true;
            }
            k = k + 1;
        }
        proof {
            if self@.contains(id) {
                let w = choose|w: int| 0 <= w < self@.len() && self@[w] == id;
            }
        }
        false
    }

    /// The identifiers of the live connections, in insertion order; the
    /// I/O layer walks them to fan a write out to every connection.
    pub fn ids(&self) -> (r: &Vec<u64>)
        ensures
            r@ == self@,
    {
        &self.live
    }

    /// Removes the connection with this identifier, if it is live. Other
    /// connections are untouched.
    pub fn remove(&mut self, id: u64)
        requires
            old(self).wf(),
        ensures
            final(self).wf(),
            final(self)@ == spec_removed(old(self)@, id),
            final(self).next() == old(self).next(),
    {
        let n = self.live.len();
        let mut kept: Vec<u64> = Vec::new();
        let mut k: usize = 0;
        proof {
            assert(old(self)@.take(0) =~= Seq::<u64>::empty());
        }
        while k < n
            invariant
                k <= n,
                n == old(self)@.len(),
                self@ == old(self)@,
                self.next() == old(self).next(),
                kept@ == spec_removed(old(self)@.take(k as int), id),
            decreases n - k,
        {
            proof {
                assert(old(self)@.take(k + 1).drop_last() =~= old(self)@.take(k as int));
                assert(old(self)@.take(k + 1).last() == old(self)@[k as int]);
            }
            if self.live[k] != id {
                kept.push(self.live[k]);
            }
            k = k + 1;
        }
        proof {
            assert(old(self)@.take(n as int) =~= old(self)@);
            lemma_removed_properties(old(self)@, id);
        }
        self.live = kept;
        proof {
            assert forall|w: int| 0 <= w < self@.len() implies #[trigger] self@[w]
                < self.next() by {
                assert(self@.contains(self@[w]));
                assert(old(self)@.contains(self@[w]));
                let u = choose|u: int| 0 <= u < old(self)@.len() && old(self)@[u] == self@[w];
            }
        }
    }

    /// Applies the per-connection results of one fan-out write: connections
    /// whose write succeeded stay, the others leave, and the identifiers of
    /// the leavers are handed back so their read tasks can be stopped.
    pub fn apply_write_results(&mut self, ok: &Vec<bool>) -> (removed: Vec<u64>)
        requires
            old(self).wf(),
            ok@.len() == old(self)@.len(),
        ensures
            final(self).wf(),
            final(self)@ == spec_kept(old(self)@, ok@),
            removed@ == spec_dropped(old(self)@, ok@),
            final(self).next() == old(self).next(),
            final(self)@.len() == spec_count_true(ok@),
            removed@.len() == old(self)@.len() - spec_count_true(ok@),
    {
        let n = self.live.len();
        let mut kept: Vec<u64> = Vec::new();
        let mut removed: Vec<u64> = Vec::new();
        let mut k: usize = 0;
        proof {
            assert(old(self)@.take(0) =~= Seq::<u64>::empty());
            assert(ok@.take(0) =~= Seq::<bool>::empty());
        }
        while k < n
            invariant
                k <= n,
                n == old(self)@.len(),
                ok@.len() == old(self)@.len(),
                self@ == old(self)@,
                self.next() == old(self).next(),
                kept@ == spec_kept(old(self)@.take(k as int), ok@.take(k as int)),
                removed@ == spec_dropped(old(self)@.take(k as int), ok@.take(k as int)),
            decreases n - k,
        {
            proof {
                assert(old(self)@.take(k + 1).drop_last() =~= old(self)@.take(k as int));
                assert(ok@.take(k + 1).drop_last() =~= ok@.take(k as int));
                assert(old(self)@.take(k + 1).last() == old(self)@[k as int]);
                assert(ok@.take(k + 1).last() == ok@[k as int]);
            }
            if ok[k] {
                kept.push(self.live[k]);
            } else {
                removed.push(self.live[k]);
            }
            k = k + 1;
        }
        proof {
            assert(old(self)@.take(n as int) =~= old(self)@);
            assert(ok@.take(n as int) =~= ok@);
            lemma_registry_consistency(old(self)@, ok@);
        }
        self.live = kept;
        proof {
            assert forall|w: int| 0 <= w < self@.len() implies #[trigger] self@[w]
                < self.next() by {
                assert(self@.contains(self@[w]));
                assert(old(self)@.contains(self@[w]));
                let u = choose|u: int| 0 <= u < old(self)@.len() && old(self)@[u] == self@[w];
            }
        }
        removed
    }
}

} // verus!
