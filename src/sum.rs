use vstd::prelude::*;

verus! {

/// A symbol: a dense integer handle standing for one qualification.
pub type Sym = usize;

/// True when the sequence is strictly increasing, the canonical form of a clause.
pub open spec fn sorted(s: Seq<Sym>) -> bool {
    forall|i: int, j: int| 0 <= i < j < s.len() ==> s[i] < s[j]
}

/// The set of symbols held by a sequence.
pub open spec fn elems(s: Seq<Sym>) -> Set<Sym> {
    Set::new(|x: Sym| s.contains(x))
}

/// Two strictly increasing sequences with the same elements are equal.
pub proof fn lemma_sorted_unique(a: Seq<Sym>, b: Seq<Sym>)
    requires
        sorted(a),
        sorted(b),
        elems(a) == elems(b),
    ensures
        a == b,
    decreases a.len() + b.len(),
{
    if a.len() == 0 {
        if b.len() > 0 {
            assert(elems(b).contains(b[0]));
            assert(!elems(a).contains(b[0]));
        }
        assert(a =~= b);
    } else if b.len() == 0 {
        assert(elems(a).contains(a[0]));
        assert(!elems(b).contains(a[0]));
    } else {
        assert(elems(a).contains(a[0]));
        assert(elems(b).contains(b[0]));
        let ia = choose|i: int| 0 <= i < a.len() && a[i] == b[0];
        let ib = choose|i: int| 0 <= i < b.len() && b[i] == a[0];
        assert(a[0] == b[0]) by {
            if a[0] < b[0] {
                assert(b[ib] >= b[0]);
            } else if a[0] > b[0] {
                assert(a[ia] >= a[0]);
            }
        }
        let ta = a.drop_first();
        let tb = b.drop_first();
        assert(elems(ta) =~= elems(tb)) by {
            assert forall|x: Sym| elems(ta).contains(x) implies elems(tb).contains(x) by {
                let k = choose|k: int| 0 <= k < ta.len() && ta[k] == x;
                assert(a[k + 1] == x);
                assert(elems(b).contains(x));
                let m = choose|m: int| 0 <= m < b.len() && b[m] == x;
                assert(m != 0);
                assert(tb[m - 1] == x);
            }
            assert forall|x: Sym| elems(tb).contains(x) implies elems(ta).contains(x) by {
                let k = choose|k: int| 0 <= k < tb.len() && tb[k] == x;
                assert(b[k + 1] == x);
                assert(elems(a).contains(x));
                let m = choose|m: int| 0 <= m < a.len() && a[m] == x;
                assert(m != 0);
                assert(ta[m - 1] == x);
            }
        }
        lemma_sorted_unique(ta, tb);
        assert(a =~= seq![a[0]] + ta);
        assert(b =~= seq![b[0]] + tb);
    }
}

/// Appending a symbol adds it to the set.
pub proof fn lemma_elems_push(s: Seq<Sym>, x: Sym)
    ensures
        elems(s.push(x)) == elems(s).insert(x),
{
    assert forall|y: Sym| elems(s.push(x)).contains(y) <==> elems(s).insert(x).contains(y) by {
        if s.push(x).contains(y) {
            let k = choose|k: int| 0 <= k < s.push(x).len() && s.push(x)[k] == y;
            if k < s.len() {
                assert(s[k] == y);
            }
        }
        if s.contains(y) {
            let k = choose|k: int| 0 <= k < s.len() && s[k] == y;
            assert(s.push(x)[k] == y);
        }
        if y == x {
            assert(s.push(x)[s.len() as int] == x);
        }
    }
    assert(elems(s.push(x)) =~= elems(s).insert(x));
}

/// A clause: a set of symbols, at least one of which must hold.
/// The symbols are kept strictly increasing, so equal clauses are equal vectors.
#[derive(Clone, Debug, PartialEq, Eq, Hash, PartialOrd, Ord)]
pub struct Sum {
    pub inner: Vec<Sym>,
}

impl View for Sum {
    type V = Set<Sym>;

    open spec fn view(&self) -> Set<Sym> {
        elems(self.inner@)
    }
}

impl Sum {
    pub open spec fn wf(&self) -> bool {
        sorted(self.inner@)
    }

    /// The clause with no symbols.
    pub fn new() -> (r: Sum)
        ensures
            r.wf(),
            r@ == Set::<Sym>::empty(),
    {
        let r = Sum { inner: Vec::new() };
        assert(r@ =~= Set::<Sym>::empty());
        r
    }

    /// The clause holding the given symbols, duplicates merged.
    pub fn from_vec(symbols: Vec<Sym>) -> (r: Sum)
        ensures
            r.wf(),
            r@ == elems(symbols@),
    {
        let mut r = Sum::new();
        let mut i: usize = 0;
        while i < symbols.len()
            invariant
                i <= symbols.len(),
                r.wf(),
                r@ == elems(symbols@.take(i as int)),
            decreases symbols.len() - i,
        {
            let one = Sum::singleton(symbols[i]);
            r = r.union(&one);
            proof {
                assert(symbols@.take(i as int + 1) =~= symbols@.take(i as int).push(symbols@[i as int]));
                lemma_elems_push(symbols@.take(i as int), symbols@[i as int]);
            }
            i = i + 1;
        }
        assert(symbols@.take(symbols.len() as int) =~= symbols@);
        r
    }

    /// The clause holding one symbol.
    pub fn singleton(symbol: Sym) -> (r: Sum)
        ensures
            r.wf(),
            r@ == Set::<Sym>::empty().insert(symbol),
    {
        let r = Sum { inner: vec![symbol] };
        assert(r@ =~= Set::<Sym>::empty().insert(symbol)) by {
            assert(r.inner@ =~= seq![symbol]);
            assert(r.inner@[0] == symbol);
        }
        r
    }

    /// A copy with the same symbols.
    pub fn duplicate(&self) -> (r: Sum)
        ensures
            r.inner@ == self.inner@,
            r@ == self@,
            r.wf() == self.wf(),
    {
        let r = Sum { inner: self.inner.clone() };
        assert(r.inner@ =~= self.inner@);
        r
    }

    /// The symbols in increasing order.
    pub fn symbols(&self) -> (r: &Vec<Sym>)
        ensures
            r@ == self.inner@,
    {
        &self.inner
    }

    pub fn len(&self) -> (r: usize)
        requires
            self.wf(),
        ensures
            r == self@.len(),
    {
        proof {
            lemma_sorted_len(self.inner@);
        }
        self.inner.len()
    }

    pub fn is_empty(&self) -> (r: bool)
        ensures
            r == (self@ == Set::<Sym>::empty()),
    {
        if self.inner.len() == 0 {
            assert(self@ =~= Set::<Sym>::empty());
            true
        } else {
            assert(self@.contains(self.inner@[0]));
            false
        }
    }

    pub fn contains(&self, symbol: Sym) -> (r: bool)
        ensures
            r == self@.contains(symbol),
    {
        let mut i: usize = 0;
        while i < self.inner.len()
            invariant
                i <= self.inner.len(),
                forall|k: int| 0 <= k < i ==> self.inner@[k] != symbol,
            decreases self.inner.len() - i,
        {
            if self.inner[i] == symbol {
                return true;
            }
            i = i + 1;
        }
        false
    }

    /// The clause without one symbol.
    pub fn without(&self, symbol: Sym) -> (r: Sum)
        requires
            self.wf(),
        ensures
            r.wf(),
            r@ == self@.remove(symbol),
    {
        let mut inner: Vec<Sym> = Vec::new();
        let mut i: usize = 0;
        while i < self.inner.len()
            invariant
                i <= self.inner.len(),
                sorted(self.inner@),
                sorted(inner@),
                forall|k: int| 0 <= k < inner.len() ==> (i < self.inner.len() ==> #[trigger] inner@[k] < self.inner@[i as int]),
                elems(inner@) == elems(self.inner@.take(i as int)).remove(symbol),
            decreases self.inner.len() - i,
        {
            let x = self.inner[i];
            let ghost before = inner@;
            if x != symbol {
                inner.push(x);
                proof {
                    lemma_elems_push(before, x);
                }
            }
            proof {
                assert(self.inner@.take(i as int + 1) =~= self.inner@.take(i as int).push(x));
                lemma_elems_push(self.inner@.take(i as int), x);
                assert(elems(inner@) =~= elems(self.inner@.take(i as int + 1)).remove(symbol));
            }
            i = i + 1;
        }
        assert(self.inner@.take(self.inner.len() as int) =~= self.inner@);
        Sum { inner }
    }

    /// Removes one symbol in place.
    pub fn remove(&mut self, symbol: Sym)
        requires
            old(self).wf(),
        ensures
            final(self).wf(),
            final(self)@ == old(self)@.remove(symbol),
    {
        *self = self.without(symbol);
    }

    pub fn is_subset(&self, other: &Sum) -> (r: bool)
        ensures
            r == self@.subset_of(other@),
    {
        let mut i: usize = 0;
        while i < self.inner.len()
            invariant
                i <= self.inner.len(),
                forall|k: int| 0 <= k < i ==> other@.contains(#[trigger] self.inner@[k]),
            decreases self.inner.len() - i,
        {
            if !other.contains(self.inner[i]) {
                assert(self@.contains(self.inner@[i as int]));
                return false;
            }
            i = i + 1;
        }
        true
    }

    /// True when the two clauses hold the same symbols.
    pub fn same(&self, other: &Sum) -> (r: bool)
        requires
            self.wf(),
            other.wf(),
        ensures
            r == (self@ == other@),
            r == (self.inner@ == other.inner@),
    {
        proof {
            if self@ == other@ {
                lemma_sorted_unique(self.inner@, other.inner@);
            }
        }
        if self.inner.len() != other.inner.len() {
            assert(self.inner@.len() != other.inner@.len());
            return false;
        }
        let mut i: usize = 0;
        while i < self.inner.len()
            invariant
                i <= self.inner.len(),
                self.inner.len() == other.inner.len(),
                self@ == other@ ==> self.inner@ == other.inner@,
                forall|k: int| 0 <= k < i ==> self.inner@[k] == other.inner@[k],
            decreases self.inner.len() - i,
        {
            if self.inner[i] != other.inner[i] {
                assert(self.inner@[i as int] != other.inner@[i as int]);
                return false;
            }
            i = i + 1;
        }
        assert(self.inner@ =~= other.inner@);
        true
    }

    /// The clause holding the symbols of both.
    pub fn union(&self, other: &Sum) -> (r: Sum)
        requires
            self.wf(),
            other.wf(),
        ensures
            r.wf(),
            r@ == self@.union(other@),
    {
        let a = &self.inner;
        let b = &other.inner;
        let mut out: Vec<Sym> = Vec::new();
        let mut i: usize = 0;
        let mut j: usize = 0;
        while i < a.len() || j < b.len()
            invariant
                i <= a.len(),
                j <= b.len(),
                sorted(a@),
                sorted(b@),
                sorted(out@),
                forall|k: int| 0 <= k < out.len() ==> (i < a.len() ==> #[trigger] out@[k] < a@[i as int]),
                forall|k: int| 0 <= k < out.len() ==> (j < b.len() ==> #[trigger] out@[k] < b@[j as int]),
                elems(out@) == elems(a@.take(i as int)).union(elems(b@.take(j as int))),
            decreases a.len() + b.len() - i - j,
        {
            let ghost oi = i as int;
            let ghost oj = j as int;
            let ghost before = out@;
            if j >= b.len() || (i < a.len() && a[i] < b[j]) {
                out.push(a[i]);
                i = i + 1;
            } else if i >= a.len() || b[j] < a[i] {
                out.push(b[j]);
                j = j + 1;
            } else {
                out.push(a[i]);
                i = i + 1;
                j = j + 1;
            }
            proof {
                lemma_elems_push(before, out@.last());
                assert(out@ =~= before.push(out@.last()));
                lemma_elems_push(a@.take(oi), a@[oi]);
                lemma_elems_push(b@.take(oj), b@[oj]);
                assert(a@.take(i as int) =~= if i as int == oi { a@.take(oi) } else { a@.take(oi).push(a@[oi]) });
                assert(b@.take(j as int) =~= if j as int == oj { b@.take(oj) } else { b@.take(oj).push(b@[oj]) });
                assert(elems(out@) =~= elems(a@.take(i as int)).union(elems(b@.take(j as int))));
            }
        }
        assert(a@.take(a.len() as int) =~= a@);
        assert(b@.take(b.len() as int) =~= b@);
        Sum { inner: out }
    }
}

/// A strictly increasing sequence has as many elements as its set.
pub proof fn lemma_sorted_len(s: Seq<Sym>)
    requires
        sorted(s),
    ensures
        elems(s).finite(),
        elems(s).len() == s.len(),
    decreases s.len(),
{
    if s.len() == 0 {
        assert(elems(s) =~= Set::<Sym>::empty());
    } else {
        let t = s.drop_last();
        lemma_sorted_len(t);
        assert(s =~= t.push(s.last()));
        lemma_elems_push(t, s.last());
        assert(!t.contains(s.last()));
    }
}

} // verus!
