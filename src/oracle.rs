use vstd::prelude::*;
use crate::sum::{Sum, Sym, lemma_sorted_len};
use crate::logic::{Products, lemma_to_map};

verus! {

/// The database as the checks see it: a formula, as a sequence of clauses, per symbol.
pub type Db = Map<Sym, Seq<Set<Sym>>>;

/// A symbol that can still be replaced by one of its clauses.
pub open spec fn expandable(db: Db, x: Sym) -> bool {
    db.contains_key(x) && db[x].len() > 0
}

/// A candidate worth exploring: each of its symbols is on the right side or can be
/// expanded further.
pub open spec fn viable(db: Db, rhs: Set<Sym>, c: Set<Sym>) -> bool {
    forall|x: Sym| #[trigger] c.contains(x) ==> rhs.contains(x) || expandable(db, x)
}

/// True when clause `i` of symbol `s` is the one excluded from the search.
pub open spec fn is_forbidden(forbid: Option<(Sym, usize)>, s: Sym, i: int) -> bool {
    match forbid {
        Some((fs, fi)) => fs == s && fi as int == i,
        None => false,
    }
}

/// The candidate got from `c` by replacing `s` with clause `i` of its formula.
pub open spec fn substitute(db: Db, c: Set<Sym>, s: Sym, i: int) -> Set<Sym> {
    c.remove(s).union(db[s][i])
}

/// One step of the search: a symbol of `c` replaced by one of its allowed clauses,
/// giving a viable candidate `d`.
pub open spec fn step(db: Db, rhs: Set<Sym>, forbid: Option<(Sym, usize)>, c: Set<Sym>, d: Set<Sym>) -> bool {
    exists|s: Sym, i: int|
        #![trigger substitute(db, c, s, i)]
        c.contains(s) && db.contains_key(s) && 0 <= i < db[s].len() && !is_forbidden(forbid, s, i)
            && d == substitute(db, c, s, i) && viable(db, rhs, d)
}

/// `d` is reached from `c` in `n` steps.
pub open spec fn reaches(db: Db, rhs: Set<Sym>, forbid: Option<(Sym, usize)>, c: Set<Sym>, d: Set<Sym>, n: nat) -> bool
    decreases n,
{
    if n == 0 {
        c == d
    } else {
        exists|m: Set<Sym>| #[trigger] step(db, rhs, forbid, c, m) && reaches(db, rhs, forbid, m, d, (n - 1) as nat)
    }
}

/// Holding the symbols `lhs` (any one of them) guarantees holding one of `rhs`: by
/// replacing symbols with clauses of their formulas some candidate within `rhs` is
/// reached.
pub open spec fn implied(db: Db, lhs: Set<Sym>, rhs: Set<Sym>, forbid: Option<(Sym, usize)>) -> bool {
    exists|n: nat, d: Set<Sym>| #[trigger] reaches(db, rhs, forbid, lhs, d, n) && d.subset_of(rhs)
}

/// All subsets of a set.
pub open spec fn subsets(u: Set<Sym>) -> Set<Set<Sym>> {
    Set::new(|e: Set<Sym>| e.subset_of(u))
}

/// A finite set has finitely many subsets.
pub proof fn lemma_subsets_finite(u: Set<Sym>)
    requires
        u.finite(),
    ensures
        subsets(u).finite(),
    decreases u.len(),
{
    if u.len() == 0 {
        assert(u =~= Set::<Sym>::empty());
        assert(subsets(u) =~= Set::<Set<Sym>>::empty().insert(Set::<Sym>::empty())) by {
            assert forall|e: Set<Sym>| subsets(u).contains(e) implies e == Set::<Sym>::empty() by {
                assert(e =~= Set::<Sym>::empty());
            }
        }
    } else {
        let x = u.choose();
        let v = u.remove(x);
        lemma_subsets_finite(v);
        let f = |e: Set<Sym>| e.insert(x);
        subsets(v).lemma_map_finite(f);
        let w = subsets(v).union(subsets(v).map(f));
        assert(subsets(u) =~= w) by {
            assert forall|e: Set<Sym>| subsets(u).contains(e) implies w.contains(e) by {
                if e.contains(x) {
                    let e0 = e.remove(x);
                    assert(subsets(v).contains(e0));
                    assert(e0.insert(x) =~= e);
                    assert(subsets(v).map(f).contains(f(e0)));
                } else {
                    assert(subsets(v).contains(e));
                }
            }
        }
    }
}

/// Whatever is reached from a set closed under steps stays in it.
pub proof fn lemma_closed(db: Db, rhs: Set<Sym>, forbid: Option<(Sym, usize)>, s: Set<Set<Sym>>, c: Set<Sym>, d: Set<Sym>, n: nat)
    requires
        s.contains(c),
        forall|a: Set<Sym>, b: Set<Sym>| s.contains(a) && #[trigger] step(db, rhs, forbid, a, b) ==> s.contains(b),
        reaches(db, rhs, forbid, c, d, n),
    ensures
        s.contains(d),
    decreases n,
{
    if n > 0 {
        let m = choose|m: Set<Sym>| #[trigger] step(db, rhs, forbid, c, m) && reaches(db, rhs, forbid, m, d, (n - 1) as nat);
        lemma_closed(db, rhs, forbid, s, m, d, (n - 1) as nat);
    }
}

/// A step after a path of `n` steps gives a path of `n + 1` steps.
pub proof fn lemma_extend(db: Db, rhs: Set<Sym>, forbid: Option<(Sym, usize)>, c: Set<Sym>, m: Set<Sym>, d: Set<Sym>, n: nat)
    requires
        reaches(db, rhs, forbid, c, m, n),
        step(db, rhs, forbid, m, d),
    ensures
        reaches(db, rhs, forbid, c, d, n + 1),
    decreases n,
{
    if n == 0 {
        assert(reaches(db, rhs, forbid, d, d, 0));
        assert(c == m);
    } else {
        let k = choose|k: Set<Sym>| #[trigger] step(db, rhs, forbid, c, k) && reaches(db, rhs, forbid, k, m, (n - 1) as nat);
        lemma_extend(db, rhs, forbid, k, m, d, (n - 1) as nat);
        assert(n + 1 - 1 == n);
    }
}

/// The lists of the search agree with the set `s` of candidates seen so far: each one
/// seen is in `seen`, each one waiting is in `heap`, each one seen is settled or waits.
#[verifier::opaque]
pub open spec fn lists_ok(seen: Seq<Sum>, heap: Seq<Sum>, s: Set<Set<Sym>>, done: Set<Set<Sym>>) -> bool {
    &&& forall|i: int| 0 <= i < seen.len() ==> (#[trigger] seen[i]).wf()
    &&& forall|i: int| 0 <= i < heap.len() ==> (#[trigger] heap[i]).wf()
    &&& forall|e: Set<Sym>| s.contains(e) <==> exists|i: int| 0 <= i < seen.len() && (#[trigger] seen[i])@ == e
    &&& forall|i: int| 0 <= i < heap.len() ==> s.contains(#[trigger] heap[i]@)
    &&& forall|e: Set<Sym>| #[trigger] s.contains(e) ==> done.contains(e) || exists|i: int| 0 <= i < heap.len() && (#[trigger] heap[i])@ == e
    &&& done.subset_of(s)
    &&& s.finite()
    &&& heap.len() <= s.len()
}

/// Every candidate seen is reached from `lhs`.
#[verifier::opaque]
pub open spec fn paths_ok(db: Db, rhs: Set<Sym>, forbid: Option<(Sym, usize)>, lhs: Set<Sym>, s: Set<Set<Sym>>) -> bool {
    forall|e: Set<Sym>| #[trigger] s.contains(e) ==> exists|n: nat| #[trigger] reaches(db, rhs, forbid, lhs, e, n)
}

/// Every candidate done is outside `rhs` and its steps have been seen.
#[verifier::opaque]
pub open spec fn done_ok(db: Db, rhs: Set<Sym>, forbid: Option<(Sym, usize)>, done: Set<Set<Sym>>, s: Set<Set<Sym>>) -> bool {
    &&& forall|e: Set<Sym>| #[trigger] done.contains(e) ==> !e.subset_of(rhs)
    &&& forall|a: Set<Sym>, b: Set<Sym>| done.contains(a) && #[trigger] step(db, rhs, forbid, a, b) ==> s.contains(b)
}

/// The bookkeeping of the search after a new candidate `x` is pushed on both lists.
proof fn lemma_pushed(
    old_seen: Seq<Sum>,
    seen: Seq<Sum>,
    old_heap: Seq<Sum>,
    heap: Seq<Sum>,
    s: Set<Set<Sym>>,
    done: Set<Set<Sym>>,
    x: Sum,
    y: Sum,
)
    requires
        lists_ok(old_seen, old_heap, s, done),
        !s.contains(x@),
        x.wf(),
        y.wf(),
        y@ == x@,
        seen == old_seen.push(y),
        heap == old_heap.push(x),
    ensures
        lists_ok(seen, heap, s.insert(x@), done),
        s.insert(x@).len() == s.len() + 1,
{
    reveal(lists_ok);
    let t = s.insert(x@);
    assert forall|e: Set<Sym>| t.contains(e) <==> exists|i: int| 0 <= i < seen.len() && (#[trigger] seen[i])@ == e by {
        if s.contains(e) {
            let i = choose|i: int| 0 <= i < old_seen.len() && (#[trigger] old_seen[i])@ == e;
            assert(seen[i] == old_seen[i]);
        }
        if e == x@ {
            assert(seen[seen.len() - 1]@ == e);
        }
        if exists|i: int| 0 <= i < seen.len() && (#[trigger] seen[i])@ == e {
            let i = choose|i: int| 0 <= i < seen.len() && (#[trigger] seen[i])@ == e;
            if i < old_seen.len() {
                assert(old_seen[i] == seen[i]);
            }
        }
    }
    assert forall|i: int| 0 <= i < heap.len() implies t.contains(#[trigger] heap[i]@) by {
        if i < old_heap.len() {
            assert(old_heap[i] == heap[i]);
        }
    }
    assert forall|e: Set<Sym>| #[trigger] t.contains(e) implies done.contains(e) || exists|i: int| 0 <= i < heap.len() && (#[trigger] heap[i])@ == e by {
        if e == x@ {
            assert(heap[heap.len() - 1]@ == e);
        } else if !done.contains(e) {
            let i = choose|i: int| 0 <= i < old_heap.len() && (#[trigger] old_heap[i])@ == e;
            assert(heap[i] == old_heap[i]);
        }
    }
    assert forall|i: int| 0 <= i < seen.len() implies (#[trigger] seen[i]).wf() by {
        if i < old_seen.len() {
            assert(old_seen[i] == seen[i]);
        }
    }
    assert forall|i: int| 0 <= i < heap.len() implies (#[trigger] heap[i]).wf() by {
        if i < old_heap.len() {
            assert(old_heap[i] == heap[i]);
        }
    }
}

/// True when some clause of `seen` holds the same symbols as `c`.
fn holds_same(seen: &Vec<Sum>, c: &Sum) -> (r: bool)
    requires
        c.wf(),
        forall|i: int| 0 <= i < seen@.len() ==> (#[trigger] seen@[i]).wf(),
    ensures
        r == exists|j: int| 0 <= j < seen@.len() && (#[trigger] seen@[j])@ == c@,
{
    let mut q: usize = 0;
    while q < seen.len()
        invariant
            q <= seen.len(),
            c.wf(),
            forall|i: int| 0 <= i < seen@.len() ==> (#[trigger] seen@[i]).wf(),
            forall|j: int| 0 <= j < q ==> (#[trigger] seen@[j])@ != c@,
        decreases seen.len() - q,
    {
        if seen[q].same(c) {
            return true;
        }
        q = q + 1;
    }
    false
}

impl Products {
    /// The symbols of `lhs` and of every clause of the database.
    fn universe(&self, lhs: &Sum) -> (r: Sum)
        requires
            self.wf(),
            lhs.wf(),
        ensures
            r.wf(),
            lhs@.subset_of(r@),
            forall|k: Sym, i: int| self@.contains_key(k) && 0 <= i < self@[k].len() ==> (#[trigger] self@[k][i]).subset_of(r@),
    {
        proof {
            lemma_to_map(self.entries@);
        }
        let mut u = lhs.duplicate();
        let mut e: usize = 0;
        while e < self.entries.len()
            invariant
                e <= self.entries.len(),
                self.wf(),
                u.wf(),
                lhs@.subset_of(u@),
                forall|m: int, i: int| 0 <= m < e && 0 <= i < self.entries@[m].1@.len() ==> (#[trigger] self.entries@[m].1@[i]).subset_of(u@),
            decreases self.entries.len() - e,
        {
            let product = &self.entries[e].1;
            assert(product.wf());
            let mut i: usize = 0;
            while i < product.clauses.len()
                invariant
                    e < self.entries.len(),
                    i <= product.clauses.len(),
                    product == &self.entries@[e as int].1,
                    product.wf(),
                    u.wf(),
                    lhs@.subset_of(u@),
                    forall|m: int, j: int| 0 <= m < e && 0 <= j < self.entries@[m].1@.len() ==> (#[trigger] self.entries@[m].1@[j]).subset_of(u@),
                    forall|j: int| 0 <= j < i ==> (#[trigger] product@[j]).subset_of(u@),
                decreases product.clauses.len() - i,
            {
                assert(product.clauses@[i as int].wf());
                u = u.union(&product.clauses[i]);
                i = i + 1;
            }
            e = e + 1;
        }
        proof {
            assert forall|k: Sym, i: int| self@.contains_key(k) && 0 <= i < self@[k].len() implies (#[trigger] self@[k][i]).subset_of(u@) by {
                let m = choose|m: int| 0 <= m < self.entries@.len() && self.entries@[m].0 == k;
                assert(self@[self.entries@[m].0] == self.entries@[m].1@);
            }
        }
        u
    }

    /// True when every symbol of `c` is in `rhs` or has a formula with a clause.
    fn is_viable(&self, rhs: &Sum, c: &Sum) -> (r: bool)
        requires
            self.wf(),
        ensures
            r == viable(self@, rhs@, c@),
    {
        let mut k: usize = 0;
        while k < c.inner.len()
            invariant
                k <= c.inner.len(),
                self.wf(),
                forall|j: int| 0 <= j < k ==> rhs@.contains(#[trigger] c.inner@[j]) || expandable(self@, c.inner@[j]),
            decreases c.inner.len() - k,
        {
            let x = c.inner[k];
            if !rhs.contains(x) {
                match self.get(x) {
                    Some(p) => {
                        if p.is_empty() {
                            assert(c@.contains(x));
                            return false;
                        }
                    },
                    None => {
                        assert(c@.contains(x));
                        return false;
                    },
                }
            }
            k = k + 1;
        }
        proof {
            assert forall|x: Sym| #[trigger] c@.contains(x) implies rhs@.contains(x) || expandable(self@, x) by {
                let j = choose|j: int| 0 <= j < c.inner@.len() && c.inner@[j] == x;
            }
        }
        true
    }

    /// Records `child` as a candidate unless it was seen before.
    fn consider(
        seen: &mut Vec<Sum>,
        heap: &mut Vec<Sum>,
        child: Sum,
        Ghost(s): Ghost<Set<Set<Sym>>>,
        Ghost(done): Ghost<Set<Set<Sym>>>,
    ) -> (r: Ghost<Set<Set<Sym>>>)
        requires
            lists_ok(old(seen)@, old(heap)@, s, done),
            child.wf(),
        ensures
            r@ == s.insert(child@),
            lists_ok(final(seen)@, final(heap)@, r@, done),
            s.contains(child@) ==> final(heap)@.len() == old(heap)@.len() && r@ == s,
            !s.contains(child@) ==> final(heap)@.len() == old(heap)@.len() + 1 && r@.len() == s.len() + 1,
    {
        proof {
            reveal(lists_ok);
        }
        if holds_same(seen, &child) {
            proof {
                assert(s.contains(child@));
                assert(s.insert(child@) =~= s);
            }
            Ghost(s)
        } else {
            let ghost old_seen = seen@;
            let ghost old_heap = heap@;
            let copy = child.duplicate();
            let ghost gc = copy;
            let ghost gh = child;
            seen.push(copy);
            heap.push(child);
            proof {
                assert(seen@ =~= old_seen.push(gc));
                assert(heap@ =~= old_heap.push(gh));
                lemma_pushed(old_seen, seen@, old_heap, heap@, s, done, gh, gc);
            }
            Ghost(s.insert(child@))
        }
    }

    /// Decides `implied(self@, lhs@, rhs@, disallow)` by a search over candidates,
    /// each candidate visited once. It ends on every database, cyclic or not: every
    /// candidate is a set of symbols of `lhs` and of the database, so there are
    /// finitely many.
    pub fn implies(&self, lhs: &Sum, rhs: &Sum, disallow: Option<(Sym, usize)>) -> (r: bool)
        requires
            self.wf(),
            lhs.wf(),
            rhs.wf(),
        ensures
            r == implied(self@, lhs@, rhs@, disallow),
    {
        let ghost db = self@;
        let ghost forbid = disallow;
        let universe = self.universe(lhs);
        let ghost all = subsets(universe@);
        proof {
            lemma_sorted_len(universe.inner@);
            lemma_subsets_finite(universe@);
            assert(reaches(db, rhs@, forbid, lhs@, lhs@, 0));
        }
        let mut seen: Vec<Sum> = vec![lhs.duplicate()];
        let mut heap: Vec<Sum> = vec![lhs.duplicate()];
        let ghost mut seen_set: Set<Set<Sym>> = Set::empty().insert(lhs@);
        let ghost mut done: Set<Set<Sym>> = Set::empty();
        proof {
            reveal(lists_ok);
            reveal(paths_ok);
            reveal(done_ok);
            assert(seen@[0]@ == lhs@);
            assert(heap@[0]@ == lhs@);
            assert forall|e: Set<Sym>| #[trigger] seen_set.contains(e) implies exists|n: nat| #[trigger] reaches(db, rhs@, forbid, lhs@, e, n) by {
                assert(reaches(db, rhs@, forbid, lhs@, lhs@, 0));
            }
            assert forall|e: Set<Sym>| seen_set.contains(e) <==> exists|i: int| 0 <= i < seen@.len() && (#[trigger] seen@[i])@ == e by {
                if seen_set.contains(e) {
                    assert(seen@[0]@ == e);
                }
            }
        }
        while heap.len() > 0
            invariant
                self.wf(),
                db == self@,
                forbid == disallow,
                rhs.wf(),
                all == subsets(universe@),
                all.finite(),
                forall|k: Sym, i: int| db.contains_key(k) && 0 <= i < db[k].len() ==> (#[trigger] db[k][i]).subset_of(universe@),
                lists_ok(seen@, heap@, seen_set, done),
                seen_set.contains(lhs@),
                seen_set.subset_of(all),
                paths_ok(db, rhs@, forbid, lhs@, seen_set),
                done_ok(db, rhs@, forbid, done, seen_set),
            decreases 2 * (all.len() - seen_set.len()) + heap.len(),
        {
            proof {
                vstd::set_lib::lemma_len_subset(seen_set, all);
                reveal(lists_ok);
                reveal(paths_ok);
            }
            let ghost h = heap@;
            let c = heap.pop().unwrap();
            let ghost m0 = 2 * (all.len() - seen_set.len()) + heap.len();
            proof {
                assert(c == h[h.len() - 1]);
                assert(seen_set.contains(h[h.len() - 1]@));
                assert(c@.subset_of(universe@));
                assert forall|e: Set<Sym>| #[trigger] seen_set.contains(e) implies done.insert(c@).contains(e) || exists|i: int| 0 <= i < heap@.len() && (#[trigger] heap@[i])@ == e by {
                    if !done.contains(e) && e != c@ {
                        assert(exists|i: int| 0 <= i < h.len() && (#[trigger] h[i])@ == e);
                        let i = choose|i: int| 0 <= i < h.len() && (#[trigger] h[i])@ == e;
                        assert(heap@[i] == h[i]);
                    }
                }
                assert forall|i: int| 0 <= i < heap@.len() implies (#[trigger] heap@[i]).wf() by {
                    assert(heap@[i] == h[i]);
                }
                assert forall|i: int| 0 <= i < heap@.len() implies seen_set.contains(#[trigger] heap@[i]@) by {
                    assert(heap@[i] == h[i]);
                }
                assert(lists_ok(seen@, heap@, seen_set, done.insert(c@)));
            }
            let ghost n_c = choose|n: nat| #[trigger] reaches(db, rhs@, forbid, lhs@, c@, n);
            if c.is_subset(rhs) {
                proof {
                    assert(reaches(db, rhs@, forbid, lhs@, c@, n_c));
                }
                return true;
            }
            let mut k: usize = 0;
            while k < c.inner.len()
                invariant
                    k <= c.inner.len(),
                    self.wf(),
                    db == self@,
                    forbid == disallow,
                    rhs.wf(),
                    c.wf(),
                    all == subsets(universe@),
                    all.finite(),
                    forall|k: Sym, i: int| db.contains_key(k) && 0 <= i < db[k].len() ==> (#[trigger] db[k][i]).subset_of(universe@),
                    c@.subset_of(universe@),
                    !c@.subset_of(rhs@),
                    lists_ok(seen@, heap@, seen_set, done.insert(c@)),
                    seen_set.contains(lhs@),
                    seen_set.contains(c@),
                    seen_set.subset_of(all),
                    paths_ok(db, rhs@, forbid, lhs@, seen_set),
                    done_ok(db, rhs@, forbid, done, seen_set),
                    reaches(db, rhs@, forbid, lhs@, c@, n_c),
                    forall|j: int, i: int| 0 <= j < k && db.contains_key(c.inner@[j]) && 0 <= i < db[c.inner@[j]].len() && !is_forbidden(forbid, c.inner@[j], i)
                        && viable(db, rhs@, substitute(db, c@, c.inner@[j], i)) ==> seen_set.contains(#[trigger] substitute(db, c@, c.inner@[j], i)),
                    2 * (all.len() - seen_set.len()) + heap.len() <= m0,
                decreases c.inner.len() - k,
            {
                let sym = c.inner[k];
                proof {
                    assert(c@.contains(sym));
                }
                match self.get(sym) {
                    None => {},
                    Some(product) => {
                        let mut i: usize = 0;
                        while i < product.clauses.len()
                            invariant
                                k < c.inner.len(),
                                sym == c.inner@[k as int],
                                c@.contains(sym),
                                i <= product.clauses.len(),
                                self.wf(),
                                db == self@,
                                forbid == disallow,
                                db.contains_key(sym),
                                product@ == db[sym],
                                product.wf(),
                                rhs.wf(),
                                c.wf(),
                                all == subsets(universe@),
                                all.finite(),
                                forall|k: Sym, i: int| db.contains_key(k) && 0 <= i < db[k].len() ==> (#[trigger] db[k][i]).subset_of(universe@),
                                c@.subset_of(universe@),
                                lists_ok(seen@, heap@, seen_set, done.insert(c@)),
                                seen_set.contains(lhs@),
                                seen_set.contains(c@),
                                seen_set.subset_of(all),
                                paths_ok(db, rhs@, forbid, lhs@, seen_set),
                                done_ok(db, rhs@, forbid, done, seen_set),
                                reaches(db, rhs@, forbid, lhs@, c@, n_c),
                                forall|j: int, i: int| 0 <= j < k && db.contains_key(c.inner@[j]) && 0 <= i < db[c.inner@[j]].len() && !is_forbidden(forbid, c.inner@[j], i)
                                    && viable(db, rhs@, substitute(db, c@, c.inner@[j], i)) ==> seen_set.contains(#[trigger] substitute(db, c@, c.inner@[j], i)),
                                forall|j: int| 0 <= j < i && !is_forbidden(forbid, sym, j)
                                    && viable(db, rhs@, substitute(db, c@, sym, j)) ==> seen_set.contains(#[trigger] substitute(db, c@, sym, j)),
                                2 * (all.len() - seen_set.len()) + heap.len() <= m0,
                            decreases product.clauses.len() - i,
                        {
                            assert(product.clauses@[i as int].wf());
                            let child = c.without(sym).union(&product.clauses[i]);
                            proof {
                                assert(child@ == substitute(db, c@, sym, i as int));
                            }
                            let allowed = match disallow {
                                Some((ds, di)) => !(ds == sym && di == i),
                                None => true,
                            };
                            if allowed && self.is_viable(rhs, &child) {
                                proof {
                                    assert(child@.subset_of(universe@)) by {
                                        assert(db[sym][i as int].subset_of(universe@));
                                    }
                                    assert(all.contains(child@));
                                    assert(step(db, rhs@, forbid, c@, child@));
                                    lemma_extend(db, rhs@, forbid, lhs@, c@, child@, n_c);
                                    vstd::set_lib::lemma_len_subset(seen_set.insert(child@), all);
                                    lemma_grow(db, rhs@, forbid, lhs@, done, seen_set, child@, n_c + 1);
                                }
                                let Ghost(next) = Products::consider(&mut seen, &mut heap, child, Ghost(seen_set), Ghost(done.insert(c@)));
                                proof {
                                    seen_set = next;
                                }
                            }
                            i = i + 1;
                        }
                    },
                }
                k = k + 1;
            }
            proof {
                reveal(done_ok);
                assert forall|b: Set<Sym>| #[trigger] step(db, rhs@, forbid, c@, b) implies seen_set.contains(b) by {
                    let (s, i) = choose|s: Sym, i: int|
                        #![trigger substitute(db, c@, s, i)]
                        c@.contains(s) && db.contains_key(s) && 0 <= i < db[s].len() && !is_forbidden(forbid, s, i)
                            && b == substitute(db, c@, s, i) && viable(db, rhs@, b);
                    let j = choose|j: int| 0 <= j < c.inner@.len() && c.inner@[j] == s;
                    assert(seen_set.contains(substitute(db, c@, c.inner@[j], i)));
                }
                let d2 = done.insert(c@);
                assert(done_ok(db, rhs@, forbid, d2, seen_set));
                done = d2;
                vstd::set_lib::lemma_len_subset(seen_set, all);
            }
        }
        proof {
            reveal(lists_ok);
            reveal(done_ok);
            assert forall|e: Set<Sym>| seen_set.contains(e) implies done.contains(e) by {
                if !done.contains(e) {
                    assert(exists|i: int| 0 <= i < heap@.len() && (#[trigger] heap@[i])@ == e);
                }
            }
            assert(done.contains(lhs@));
            assert forall|n: nat, d: Set<Sym>| #[trigger] reaches(db, rhs@, forbid, lhs@, d, n) implies !d.subset_of(rhs@) by {
                lemma_closed(db, rhs@, forbid, done, lhs@, d, n);
            }
        }
        false
    }
}

/// Adding a candidate reached from `lhs` keeps the path and closure facts.
proof fn lemma_grow(
    db: Db,
    rhs: Set<Sym>,
    forbid: Option<(Sym, usize)>,
    lhs: Set<Sym>,
    done: Set<Set<Sym>>,
    s: Set<Set<Sym>>,
    x: Set<Sym>,
    n: nat,
)
    requires
        paths_ok(db, rhs, forbid, lhs, s),
        done_ok(db, rhs, forbid, done, s),
        reaches(db, rhs, forbid, lhs, x, n),
    ensures
        paths_ok(db, rhs, forbid, lhs, s.insert(x)),
        done_ok(db, rhs, forbid, done, s.insert(x)),
{
    reveal(paths_ok);
    reveal(done_ok);
    assert forall|e: Set<Sym>| #[trigger] s.insert(x).contains(e) implies exists|m: nat| #[trigger] reaches(db, rhs, forbid, lhs, e, m) by {
        if e == x {
            assert(reaches(db, rhs, forbid, lhs, x, n));
        }
    }
}

} // verus!
