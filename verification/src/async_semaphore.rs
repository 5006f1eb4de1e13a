//! A counting semaphore for tasks that wait without blocking.
//!
//! The semaphore only keeps the books: who holds a permit and who waits for
//! one, in the order of arrival. A permit that is given back goes straight
//! to whoever has waited longest, and the caller is told whom to wake.

use vstd::prelude::*;

verus! {

/// The model of an [`AsyncSemaphore`]: the number of permits, who holds
/// one, and who waits, first come first.
pub struct SemaphoreView {
    pub permits: nat,
    pub holders: Seq<usize>,
    pub waiters: Seq<usize>,
}

/// Where `id` stands in `list`, if it is there.
pub open spec fn place_of(list: Seq<usize>, id: usize) -> int {
    choose|i: int| 0 <= i < list.len() && list[i] == id
}

/// `list` without `id`.
pub open spec fn without(list: Seq<usize>, id: usize) -> Seq<usize> {
    if list.contains(id) {
        list.remove(place_of(list, id))
    } else {
        list
    }
}

/// The books are in order: no more holders than permits, nobody listed
/// twice, and nobody waits while a permit is free.
pub open spec fn balanced(v: SemaphoreView) -> bool {
    &&& v.holders.len() <= v.permits
    &&& (v.holders + v.waiters).no_duplicates()
    &&& v.waiters.len() > 0 ==> v.holders.len() == v.permits
}

/// The books after `id` asks for a permit. Who holds one keeps it, who
/// waits keeps waiting; otherwise `id` gets a free permit if there is one
/// and joins the end of the queue if there is none.
pub open spec fn after_acquire(v: SemaphoreView, id: usize) -> SemaphoreView {
    if v.holders.contains(id) || v.waiters.contains(id) {
        v
    } else if v.holders.len() < v.permits {
        SemaphoreView { holders: v.holders.push(id), ..v }
    } else {
        SemaphoreView { waiters: v.waiters.push(id), ..v }
    }
}

/// Whether `id` holds a permit after asking for one: it held one already,
/// or it was not waiting and a permit was free.
pub open spec fn granted_by_acquire(v: SemaphoreView, id: usize) -> bool {
    v.holders.contains(id) || (!v.waiters.contains(id) && v.holders.len() < v.permits)
}

/// Who is woken when `id` gives its permit back: the first in the queue.
pub open spec fn woken_by_release(v: SemaphoreView, id: usize) -> Option<usize> {
    if v.holders.contains(id) && v.waiters.len() > 0 {
        Some(v.waiters[0])
    } else {
        None
    }
}

/// The books after `id` gives its permit back. The permit goes to the
/// first in the queue, if anybody waits. Nothing changes if `id` holds no
/// permit.
pub open spec fn after_release(v: SemaphoreView, id: usize) -> SemaphoreView {
    if !v.holders.contains(id) {
        v
    } else if v.waiters.len() > 0 {
        SemaphoreView {
            holders: without(v.holders, id).push(v.waiters[0]),
            waiters: v.waiters.drop_first(),
            ..v
        }
    } else {
        SemaphoreView { holders: without(v.holders, id), ..v }
    }
}

/// The books after `id` stops waiting. A permit that `id` holds stays
/// with it.
pub open spec fn after_forget(v: SemaphoreView, id: usize) -> SemaphoreView {
    SemaphoreView { waiters: without(v.waiters, id), ..v }
}

proof fn lemma_without(list: Seq<usize>, id: usize)
    requires
        list.no_duplicates(),
    ensures
        without(list, id).no_duplicates(),
        !without(list, id).contains(id),
        forall|x: usize| x != id ==> (without(list, id).contains(x) <==> list.contains(x)),
        list.contains(id) ==> without(list, id).len() == list.len() - 1,
        !list.contains(id) ==> without(list, id) == list,
{
    if list.contains(id) {
        let at = place_of(list, id);
        let rest = list.remove(at);
        assert forall|i: int, j: int| 0 <= i < rest.len() && 0 <= j < rest.len() && i
            != j implies rest[i] != rest[j] by {
            let a = if i < at { i } else { i + 1 };
            let b = if j < at { j } else { j + 1 };
            assert(rest[i] == list[a] && rest[j] == list[b]);
        }
        assert forall|x: usize| x != id implies (rest.contains(x) <==> list.contains(x)) by {
            if rest.contains(x) {
                let i = choose|i: int| 0 <= i < rest.len() && rest[i] == x;
                let a = if i < at { i } else { i + 1 };
                assert(list[a] == x);
            }
            if list.contains(x) {
                let a = choose|a: int| 0 <= a < list.len() && list[a] == x;
                let i = if a < at { a } else { a - 1 };
                assert(rest[i] == x);
            }
        }
        if rest.contains(id) {
            let i = choose|i: int| 0 <= i < rest.len() && rest[i] == id;
            let a = if i < at { i } else { i + 1 };
            assert(list[a] == id && list[at] == id);
        }
    }
}

/// Whatever is asked of a semaphore whose books are in order, they stay in
/// order; in particular there are never more holders than permits.
pub proof fn lemma_books_stay_balanced(v: SemaphoreView, id: usize)
    requires
        balanced(v),
    ensures
        balanced(after_acquire(v, id)),
        balanced(after_release(v, id)),
        balanced(after_forget(v, id)),
        after_acquire(v, id).holders.contains(id) || after_acquire(v, id).waiters.contains(id),
        !after_release(v, id).holders.contains(id) || woken_by_release(v, id) == Some(id),
{
    let all = v.holders + v.waiters;
    assert forall|i: int, j: int|
        0 <= i < v.holders.len() && 0 <= j < v.holders.len() && i != j implies v.holders[i]
        != v.holders[j] by {
        assert(all[i] == v.holders[i] && all[j] == v.holders[j]);
    }
    assert forall|i: int, j: int|
        0 <= i < v.waiters.len() && 0 <= j < v.waiters.len() && i != j implies v.waiters[i]
        != v.waiters[j] by {
        assert(all[v.holders.len() + i] == v.waiters[i] && all[v.holders.len() + j]
            == v.waiters[j]);
    }
    assert forall|i: int, j: int|
        0 <= i < v.holders.len() && 0 <= j < v.waiters.len() implies v.holders[i]
        != v.waiters[j] by {
        assert(all[i] == v.holders[i] && all[v.holders.len() + j] == v.waiters[j]);
    }
    lemma_without(v.holders, id);
    lemma_without(v.waiters, id);
    // acquire
    {
        let a = after_acquire(v, id);
        let joined = a.holders + a.waiters;
        assert forall|i: int, j: int|
            0 <= i < joined.len() && 0 <= j < joined.len() && i != j implies joined[i]
            != joined[j] by {
            if !(v.holders.contains(id) || v.waiters.contains(id)) {
                if v.holders.len() < v.permits {
                    assert(v.waiters.len() == 0);
                    if i < v.holders.len() {
                        assert(v.holders.contains(joined[i]));
                    }
                    if j < v.holders.len() {
                        assert(v.holders.contains(joined[j]));
                    }
                } else {
                    if i < all.len() {
                        assert(joined[i] == all[i]);
                        if i < v.holders.len() {
                            assert(v.holders.contains(all[i]));
                        } else {
                            assert(v.waiters[i - v.holders.len()] == all[i]);
                            assert(v.waiters.contains(all[i]));
                        }
                    }
                    if j < all.len() {
                        assert(joined[j] == all[j]);
                        if j < v.holders.len() {
                            assert(v.holders.contains(all[j]));
                        } else {
                            assert(v.waiters[j - v.holders.len()] == all[j]);
                            assert(v.waiters.contains(all[j]));
                        }
                    }
                }
            } else {
                assert(joined[i] == all[i] && joined[j] == all[j]);
            }
        }
        if !(v.holders.contains(id) || v.waiters.contains(id)) {
            if v.holders.len() < v.permits {
                assert(a.holders[v.holders.len() as int] == id);
            } else {
                assert(a.waiters[v.waiters.len() as int] == id);
            }
        }
    }
    // release
    {
        let r = after_release(v, id);
        let joined = r.holders + r.waiters;
        if v.holders.contains(id) {
            let kept = without(v.holders, id);
            assert forall|i: int, j: int|
                0 <= i < joined.len() && 0 <= j < joined.len() && i != j implies joined[i]
                != joined[j] by {
                if i < kept.len() {
                    assert(kept.contains(joined[i]));
                    assert(v.holders.contains(joined[i]));
                } else {
                    assert(joined[i] == v.waiters[i - kept.len()]);
                    assert(v.waiters.contains(joined[i]));
                }
                if j < kept.len() {
                    assert(kept.contains(joined[j]));
                    assert(v.holders.contains(joined[j]));
                } else {
                    assert(joined[j] == v.waiters[j - kept.len()]);
                    assert(v.waiters.contains(joined[j]));
                }
                if i < kept.len() && j < kept.len() {
                    assert(kept[i] != kept[j]);
                }
                if i >= kept.len() && j >= kept.len() {
                    assert(v.waiters[i - kept.len()] != v.waiters[j - kept.len()]);
                }
            }
            if r.holders.contains(id) {
                let k = choose|k: int| 0 <= k < r.holders.len() && r.holders[k] == id;
                if k < kept.len() {
                    assert(kept.contains(id));
                }
            }
        }
    }
    // forget
    {
        let f = after_forget(v, id);
        let joined = f.holders + f.waiters;
        assert forall|i: int, j: int|
            0 <= i < joined.len() && 0 <= j < joined.len() && i != j implies joined[i]
            != joined[j] by {
            if i < v.holders.len() {
                assert(v.holders.contains(joined[i]));
            } else {
                assert(f.waiters.contains(joined[i]));
                assert(v.waiters.contains(joined[i]));
            }
            if j < v.holders.len() {
                assert(v.holders.contains(joined[j]));
            } else {
                assert(f.waiters.contains(joined[j]));
                assert(v.waiters.contains(joined[j]));
            }
            if i >= v.holders.len() && j >= v.holders.len() {
                assert(f.waiters[i - v.holders.len()] != f.waiters[j - v.holders.len()]);
            }
        }
    }
}

/// In books that are in order nobody holds twice, nobody waits twice,
/// and nobody holds and waits; and the books stay in order when the queue,
/// or the queue and the holders, are emptied.
proof fn lemma_parts(v: SemaphoreView)
    requires
        balanced(v),
    ensures
        v.holders.no_duplicates(),
        v.waiters.no_duplicates(),
        forall|x: usize| !(v.holders.contains(x) && v.waiters.contains(x)),
        balanced(SemaphoreView { waiters: Seq::empty(), ..v }),
        balanced(SemaphoreView { holders: Seq::empty(), waiters: Seq::empty(), ..v }),
{
    let all = v.holders + v.waiters;
    assert forall|i: int, j: int|
        0 <= i < v.holders.len() && 0 <= j < v.holders.len() && i != j implies v.holders[i]
        != v.holders[j] by {
        assert(all[i] == v.holders[i] && all[j] == v.holders[j]);
    }
    assert forall|i: int, j: int|
        0 <= i < v.waiters.len() && 0 <= j < v.waiters.len() && i != j implies v.waiters[i]
        != v.waiters[j] by {
        assert(all[v.holders.len() + i] == v.waiters[i] && all[v.holders.len() + j]
            == v.waiters[j]);
    }
    assert forall|x: usize| !(v.holders.contains(x) && v.waiters.contains(x)) by {
        if v.holders.contains(x) && v.waiters.contains(x) {
            let i = choose|i: int| 0 <= i < v.holders.len() && v.holders[i] == x;
            let j = choose|j: int| 0 <= j < v.waiters.len() && v.waiters[j] == x;
            assert(all[i] == x && all[v.holders.len() + j] == x);
        }
    }
    assert(v.holders + Seq::<usize>::empty() =~= v.holders);
    assert(Seq::<usize>::empty() + Seq::<usize>::empty() =~= Seq::<usize>::empty());
}

/// Who is on the books: holds a permit or waits for one.
pub open spec fn registered(v: SemaphoreView, id: usize) -> bool {
    v.holders.contains(id) || v.waiters.contains(id)
}

/// After `id` has given its permit back it holds none, unless it was itself
/// first in the queue; and where there is one permit only, whoever holds it
/// afterwards is the one that was woken.
pub proof fn lemma_release_frees(v: SemaphoreView, id: usize)
    requires
        balanced(v),
        v.holders.contains(id),
    ensures
        !after_release(v, id).holders.contains(id),
        forall|x: usize| #[trigger]
            after_release(v, id).holders.contains(x) ==> (v.holders.contains(x) && x != id)
                || woken_by_release(v, id) == Some(x),
{
    lemma_parts(v);
    lemma_without(v.holders, id);
    let kept = without(v.holders, id);
    let after = after_release(v, id);
    assert forall|x: usize| #[trigger] after.holders.contains(x) implies (v.holders.contains(x)
        && x != id) || woken_by_release(v, id) == Some(x) by {
        let k = choose|k: int| 0 <= k < after.holders.len() && after.holders[k] == x;
        if k < kept.len() {
            assert(kept[k] == x);
            assert(kept.contains(x));
        }
    }
    if after.holders.contains(id) {
        assert(v.waiters.len() > 0 && v.waiters[0] == id);
        assert(v.waiters.contains(id));
    }
}

/// Who is on the books after each of the three things that can be asked:
/// asking adds the one who asks and nobody else, giving back and going away
/// remove nobody but the one who gives back or goes away. Who held a
/// permit before still holds it after somebody else asks or goes away.
pub proof fn lemma_who_is_on_the_books(v: SemaphoreView, id: usize)
    requires
        balanced(v),
    ensures
        forall|x: usize| #[trigger]
            registered(after_acquire(v, id), x) <==> (registered(v, x) || x == id),
        forall|x: usize|
            x != id ==> (#[trigger] registered(after_release(v, id), x) <==> registered(v, x)),
        forall|x: usize|
            x != id ==> (#[trigger] registered(after_forget(v, id), x) <==> registered(v, x)),
        forall|x: usize| #[trigger]
            after_acquire(v, id).holders.contains(x) <==> (v.holders.contains(x) || (x == id
                && granted_by_acquire(v, id))),
        after_forget(v, id).holders == v.holders,
        forall|x: usize|
            x != id && v.holders.contains(x) ==> #[trigger] after_release(v, id).holders.contains(
                x,
            ),
{
    lemma_parts(v);
    lemma_without(v.holders, id);
    lemma_without(v.waiters, id);
    let a = after_acquire(v, id);
    assert forall|x: usize| #[trigger] registered(a, x) <==> (registered(v, x) || x == id) by {
        if !(v.holders.contains(id) || v.waiters.contains(id)) {
            if v.holders.len() < v.permits {
                assert(a.holders[v.holders.len() as int] == id);
                if a.holders.contains(x) && x != id {
                    let k = choose|k: int| 0 <= k < a.holders.len() && a.holders[k] == x;
                    assert(v.holders[k] == x);
                }
                if v.holders.contains(x) {
                    let k = choose|k: int| 0 <= k < v.holders.len() && v.holders[k] == x;
                    assert(a.holders[k] == x);
                }
            } else {
                assert(a.waiters[v.waiters.len() as int] == id);
                if a.waiters.contains(x) && x != id {
                    let k = choose|k: int| 0 <= k < a.waiters.len() && a.waiters[k] == x;
                    assert(v.waiters[k] == x);
                }
                if v.waiters.contains(x) {
                    let k = choose|k: int| 0 <= k < v.waiters.len() && v.waiters[k] == x;
                    assert(a.waiters[k] == x);
                }
            }
        }
    }
    assert forall|x: usize| #[trigger]
        a.holders.contains(x) <==> (v.holders.contains(x) || (x == id && granted_by_acquire(
            v,
            id,
        ))) by {
        if !(v.holders.contains(id) || v.waiters.contains(id)) && v.holders.len() < v.permits {
            assert(a.holders[v.holders.len() as int] == id);
            if a.holders.contains(x) && x != id {
                let k = choose|k: int| 0 <= k < a.holders.len() && a.holders[k] == x;
                assert(v.holders[k] == x);
            }
            if v.holders.contains(x) {
                let k = choose|k: int| 0 <= k < v.holders.len() && v.holders[k] == x;
                assert(a.holders[k] == x);
            }
        }
    }
    let r = after_release(v, id);
    let kept = without(v.holders, id);
    assert forall|x: usize| x != id implies (#[trigger] registered(r, x) <==> registered(v, x)) by {
        if v.holders.contains(id) {
            if v.waiters.len() > 0 {
                let first = v.waiters[0];
                let rest = v.waiters.drop_first();
                assert(r.holders[kept.len() as int] == first);
                if r.holders.contains(x) {
                    let k = choose|k: int| 0 <= k < r.holders.len() && r.holders[k] == x;
                    if k < kept.len() {
                        assert(kept[k] == x);
                        assert(kept.contains(x));
                    } else {
                        assert(v.waiters.contains(x));
                    }
                }
                if r.waiters.contains(x) {
                    let k = choose|k: int| 0 <= k < rest.len() && rest[k] == x;
                    assert(v.waiters[k + 1] == x);
                }
                if v.holders.contains(x) {
                    assert(kept.contains(x));
                    let k = choose|k: int| 0 <= k < kept.len() && kept[k] == x;
                    assert(r.holders[k] == x);
                }
                if v.waiters.contains(x) {
                    let k = choose|k: int| 0 <= k < v.waiters.len() && v.waiters[k] == x;
                    if k == 0 {
                        assert(r.holders.contains(x));
                    } else {
                        assert(rest[k - 1] == x);
                    }
                }
            }
        }
    }
    assert forall|x: usize| x != id && v.holders.contains(x) implies #[trigger] r.holders.contains(
        x,
    ) by {
        if v.holders.contains(id) {
            assert(kept.contains(x));
            let k = choose|k: int| 0 <= k < kept.len() && kept[k] == x;
            assert(r.holders[k] == x);
        }
    }
}

/// Finds `id` in a list without repetitions.
fn position(list: &Vec<usize>, id: usize) -> (at: Option<usize>)
    requires
        list@.no_duplicates(),
    ensures
        at is Some <==> list@.contains(id),
        at is Some ==> at->0 < list.len() && at->0 == place_of(list@, id),
{
    let mut i: usize = 0;
    while i < list.len()
        invariant
            i <= list.len(),
            list@.no_duplicates(),
            forall|j: int| 0 <= j < i ==> list@[j] != id,
        decreases list.len() - i,
    {
        if list[i] == id {
            return Some(i);
        }
        i = i + 1;
    }
    None
}

/// A semaphore with a fixed number of permits and a queue of waiters.
#[derive(Debug, PartialEq, Eq)]
pub struct AsyncSemaphore {
    permits: usize,
    holders: Vec<usize>,
    waiters: Vec<usize>,
}

impl View for AsyncSemaphore {
    type V = SemaphoreView;

    closed spec fn view(&self) -> SemaphoreView {
        SemaphoreView {
            permits: self.permits as nat,
            holders: self.holders@,
            waiters: self.waiters@,
        }
    }
}

impl AsyncSemaphore {
    #[verifier::type_invariant]
    spec fn inv(self) -> bool {
        balanced(self@)
    }

    /// A semaphore with `permits` permits, all of them free.
    pub fn new(permits: usize) -> (semaphore: AsyncSemaphore)
        ensures
            semaphore@ == (SemaphoreView {
                permits: permits as nat,
                holders: Seq::empty(),
                waiters: Seq::empty(),
            }),
    {
        let semaphore = AsyncSemaphore { permits, holders: Vec::new(), waiters: Vec::new() };
        assert((semaphore@.holders + semaphore@.waiters) =~= Seq::<usize>::empty());
        semaphore
    }

    /// Does nothing; tells the caller that the books are in order.
    pub fn in_order(&self)
        ensures
            balanced(self@),
    {
        proof {
            use_type_invariant(self);
        }
    }

    /// The number of permits that are free.
    pub fn available_permits(&self) -> (n: usize)
        ensures
            balanced(self@),
            n == self@.permits - self@.holders.len(),
    {
        proof {
            use_type_invariant(self);
        }
        self.permits - self.holders.len()
    }

    /// The number of those who wait.
    pub fn num_waiters(&self) -> (n: usize)
        ensures
            balanced(self@),
            n == self@.waiters.len(),
    {
        proof {
            use_type_invariant(self);
        }
        self.waiters.len()
    }

    /// Tells whether `id` holds a permit.
    pub fn holds(&self, id: usize) -> (b: bool)
        ensures
            balanced(self@),
            b == self@.holders.contains(id),
    {
        proof {
            use_type_invariant(self);
            lemma_parts(self@);
        }
        position(&self.holders, id).is_some()
    }

    /// Asks for a permit for `id` and tells whether `id` holds one now.
    /// If not, `id` waits in the queue and is handed a permit by a later
    /// `release`.
    pub fn acquire(&mut self, id: usize) -> (granted: bool)
        ensures
            balanced(old(self)@),
            balanced(final(self)@),
            final(self)@ == after_acquire(old(self)@, id),
            granted == granted_by_acquire(old(self)@, id),
            granted == final(self)@.holders.contains(id),
    {
        proof {
            use_type_invariant(&*self);
            lemma_books_stay_balanced(self@, id);
            lemma_parts(self@);
        }
        if position(&self.holders, id).is_some() {
            return true;
        }
        if position(&self.waiters, id).is_some() {
            return false;
        }
        if self.holders.len() < self.permits {
            let mut list: Vec<usize> = Vec::new();
            core::mem::swap(&mut self.holders, &mut list);
            list.push(id);
            assert(list@[list@.len() - 1] == id);
            core::mem::swap(&mut self.holders, &mut list);
            true
        } else {
            let ghost before = self@;
            let mut list: Vec<usize> = Vec::new();
            core::mem::swap(&mut self.waiters, &mut list);
            list.push(id);
            proof {
                if after_acquire(before, id).holders.contains(id) {
                    assert(before.holders.contains(id));
                }
            }
            core::mem::swap(&mut self.waiters, &mut list);
            false
        }
    }

    /// Gives back the permit that `id` holds. If somebody waits, the permit
    /// goes to the one who has waited longest, who is returned so that the
    /// caller can wake it.
    pub fn release(&mut self, id: usize) -> (woken: Option<usize>)
        ensures
            balanced(old(self)@),
            balanced(final(self)@),
            final(self)@ == after_release(old(self)@, id),
            woken == woken_by_release(old(self)@, id),
    {
        proof {
            use_type_invariant(&*self);
            lemma_books_stay_balanced(self@, id);
            lemma_parts(self@);
        }
        let ghost before = self@;
        match position(&self.holders, id) {
            None => None,
            Some(at) => {
                let mut holders: Vec<usize> = Vec::new();
                let mut waiters: Vec<usize> = Vec::new();
                core::mem::swap(&mut self.waiters, &mut waiters);
                core::mem::swap(&mut self.holders, &mut holders);
                let _ = holders.remove(at);
                let woken = if waiters.len() > 0 {
                    let next = waiters.remove(0);
                    assert(waiters@ =~= before.waiters.drop_first());
                    holders.push(next);
                    Some(next)
                } else {
                    None
                };
                proof {
                    let after = after_release(before, id);
                    assert(holders@ == after.holders);
                    assert(waiters@ == after.waiters);
                    lemma_parts(after);
                }
                core::mem::swap(&mut self.holders, &mut holders);
                core::mem::swap(&mut self.waiters, &mut waiters);
                woken
            },
        }
    }

    /// Takes `id` out of the queue: it no longer waits for a permit.
    pub fn forget(&mut self, id: usize)
        ensures
            balanced(old(self)@),
            balanced(final(self)@),
            final(self)@ == after_forget(old(self)@, id),
    {
        proof {
            use_type_invariant(&*self);
            lemma_books_stay_balanced(self@, id);
            lemma_parts(self@);
        }
        match position(&self.waiters, id) {
            None => {},
            Some(at) => {
                let mut list: Vec<usize> = Vec::new();
                core::mem::swap(&mut self.waiters, &mut list);
                let _ = list.remove(at);
                core::mem::swap(&mut self.waiters, &mut list);
            },
        }
    }
}

} // verus!
