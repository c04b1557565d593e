use vstd::prelude::*;
use crate::sum::{Sum, Sym};
use vstd::multiset::Multiset;
use crate::minimize::{symbol_count, lemma_count_remove};

verus! {

broadcast use vstd::multiset::group_multiset_axioms;

/// Every clause of a sequence of clauses is strictly increasing.
pub open spec fn all_wf(s: Seq<Sum>) -> bool {
    forall|i: int| 0 <= i < s.len() ==> (#[trigger] s[i]).wf()
}

/// The sets of symbols of a sequence of clauses.
pub open spec fn sets_of(s: Seq<Sum>) -> Seq<Set<Sym>> {
    s.map_values(|c: Sum| c@)
}

/// Every clause of `b` joined with the clause `x`, in the order of `b`.
pub open spec fn join_each(x: Set<Sym>, b: Seq<Set<Sym>>) -> Seq<Set<Sym>> {
    b.map_values(|c: Set<Sym>| x.union(c))
}

/// The disjunction of two conjunctions of clauses: each clause of `a` joined with
/// each clause of `b`, the clauses of `a` in the outer order.
pub open spec fn cross(a: Seq<Set<Sym>>, b: Seq<Set<Sym>>) -> Seq<Set<Sym>>
    decreases a.len(),
{
    if a.len() == 0 {
        Seq::empty()
    } else {
        cross(a.drop_last(), b) + join_each(a.last(), b)
    }
}

/// A formula: a conjunction of clauses, each one a disjunction of symbols.
#[derive(Clone, Debug)]
pub struct Product {
    pub clauses: Vec<Sum>,
}

impl View for Product {
    type V = Seq<Set<Sym>>;

    open spec fn view(&self) -> Seq<Set<Sym>> {
        sets_of(self.clauses@)
    }
}

impl Product {
    pub open spec fn wf(&self) -> bool {
        all_wf(self.clauses@)
    }

    /// The formula built from the given clauses, in their order.
    pub fn from_sums(clauses: Vec<Sum>) -> (r: Product)
        requires
            all_wf(clauses@),
        ensures
            r.wf(),
            r.clauses@ == clauses@,
            r@ == sets_of(clauses@),
    {
        Product { clauses }
    }

    /// The formula with no clause: always satisfied, the identity of conjunction.
    pub fn and_identity() -> (r: Product)
        ensures
            r.wf(),
            r@ == Seq::<Set<Sym>>::empty(),
    {
        let r = Product { clauses: Vec::new() };
        assert(r@ =~= Seq::<Set<Sym>>::empty());
        r
    }

    /// The formula of one empty clause: never satisfied, the identity of disjunction.
    pub fn or_identity() -> (r: Product)
        ensures
            r.wf(),
            r@ == seq![Set::<Sym>::empty()],
    {
        let r = Product { clauses: vec![Sum::new()] };
        assert(r@ =~= seq![Set::<Sym>::empty()]);
        r
    }

    /// True when the formula has no clause.
    pub fn is_empty(&self) -> (r: bool)
        ensures
            r == (self@.len() == 0),
    {
        self.clauses.len() == 0
    }

    /// The number of clauses.
    pub fn len(&self) -> (r: usize)
        ensures
            r == self@.len(),
    {
        self.clauses.len()
    }

    /// The clauses, in order.
    pub fn iter(&self) -> (r: &Vec<Sum>)
        ensures
            r@ == self.clauses@,
    {
        &self.clauses
    }

    /// The clauses, in order, by value.
    pub fn into_iter(self) -> (r: Vec<Sum>)
        ensures
            r@ == self.clauses@,
    {
        self.clauses
    }

    /// Conjunction: the clauses of `self` followed by those of `other`.
    pub fn bitand(self, other: Product) -> (r: Product)
        requires
            self.wf(),
            other.wf(),
        ensures
            r.wf(),
            r@ == self@ + other@,
    {
        let mut clauses = self.clauses;
        let mut rest = other.clauses;
        let ghost a = clauses@;
        let ghost b = rest@;
        clauses.append(&mut rest);
        proof {
            assert(clauses@ =~= a + b);
            assert(sets_of(a + b) =~= sets_of(a) + sets_of(b));
        }
        Product { clauses }
    }

    /// Disjunction by distribution: every clause of `self` joined with every clause
    /// of `other`.
    pub fn bitor(&self, other: &Product) -> (r: Product)
        requires
            self.wf(),
            other.wf(),
            self@.len() * other@.len() <= usize::MAX,
        ensures
            r.wf(),
            r@ == cross(self@, other@),
    {
        let mut clauses: Vec<Sum> = Vec::new();
        let mut i: usize = 0;
        while i < self.clauses.len()
            invariant
                i <= self.clauses.len(),
                self.wf(),
                other.wf(),
                all_wf(clauses@),
                sets_of(clauses@) == cross(self@.take(i as int), other@),
            decreases self.clauses.len() - i,
        {
            let ghost before = clauses@;
            let mut j: usize = 0;
            while j < other.clauses.len()
                invariant
                    i < self.clauses.len(),
                    j <= other.clauses.len(),
                    self.wf(),
                    other.wf(),
                    all_wf(clauses@),
                    sets_of(clauses@) == cross(self@.take(i as int), other@) + join_each(
                        self@[i as int],
                        other@.take(j as int),
                    ),
                decreases other.clauses.len() - j,
            {
                let joined = self.clauses[i].union(&other.clauses[j]);
                let ghost prev = clauses@;
                clauses.push(joined);
                proof {
                    assert(other@.take(j as int + 1) =~= other@.take(j as int).push(other@[j as int]));
                    assert(sets_of(clauses@) =~= sets_of(prev).push(joined@));
                    assert(join_each(self@[i as int], other@.take(j as int + 1)) =~= join_each(
                        self@[i as int],
                        other@.take(j as int),
                    ).push(self@[i as int].union(other@[j as int])));
                }
                j = j + 1;
            }
            proof {
                assert(other@.take(other@.len() as int) =~= other@);
                let t = self@.take(i as int + 1);
                assert(t.drop_last() =~= self@.take(i as int));
                assert(t.last() == self@[i as int]);
            }
            i = i + 1;
        }
        assert(self@.take(self@.len() as int) =~= self@);
        Product { clauses }
    }
}

/// The map held by a sequence of entries; a later entry for a key wins.
pub open spec fn to_map(s: Seq<(Sym, Product)>) -> Map<Sym, Seq<Set<Sym>>>
    decreases s.len(),
{
    if s.len() == 0 {
        Map::empty()
    } else {
        to_map(s.drop_last()).insert(s.last().0, s.last().1@)
    }
}

/// No key occurs twice.
pub open spec fn unique_keys(s: Seq<(Sym, Product)>) -> bool {
    forall|i: int, j: int| 0 <= i < j < s.len() ==> s[i].0 != s[j].0
}

/// With distinct keys, the map holds exactly the entries.
pub proof fn lemma_to_map(s: Seq<(Sym, Product)>)
    requires
        unique_keys(s),
    ensures
        forall|k: Sym| to_map(s).contains_key(k) <==> exists|i: int| 0 <= i < s.len() && s[i].0 == k,
        forall|i: int| 0 <= i < s.len() ==> to_map(s)[#[trigger] s[i].0] == s[i].1@,
        to_map(s).dom().finite(),
    decreases s.len(),
{
    if s.len() > 0 {
        let t = s.drop_last();
        lemma_to_map(t);
        assert forall|k: Sym| to_map(s).contains_key(k) implies exists|i: int| 0 <= i < s.len() && s[i].0 == k by {
            if k != s.last().0 {
                let i = choose|i: int| 0 <= i < t.len() && t[i].0 == k;
                assert(s[i].0 == k);
            } else {
                assert(s[s.len() - 1].0 == k);
            }
        }
        assert forall|k: Sym| (exists|i: int| 0 <= i < s.len() && s[i].0 == k) implies to_map(s).contains_key(k) by {
            let i = choose|i: int| 0 <= i < s.len() && s[i].0 == k;
            if i < s.len() - 1 {
                assert(t[i].0 == k);
            }
        }
        assert forall|i: int| 0 <= i < s.len() implies to_map(s)[#[trigger] s[i].0] == s[i].1@ by {
            if i < s.len() - 1 {
                assert(t[i] == s[i]);
                assert(s[i].0 != s.last().0);
            }
        }
    } else {
        assert(to_map(s).dom() =~= Set::<Sym>::empty());
    }
}

/// Each key of the map comes with the formula of one of its entries.
pub proof fn lemma_to_map_from(s: Seq<(Sym, Product)>, k: Sym)
    requires
        to_map(s).contains_key(k),
    ensures
        exists|i: int| 0 <= i < s.len() && s[i].0 == k && to_map(s)[k] == s[i].1@,
    decreases s.len(),
{
    if s.len() > 0 {
        if s.last().0 == k {
            assert(s[s.len() - 1] == s.last());
        } else {
            lemma_to_map_from(s.drop_last(), k);
            let i = choose|i: int| 0 <= i < s.len() - 1 && s.drop_last()[i].0 == k && to_map(s.drop_last())[k] == s.drop_last()[i].1@;
            assert(s[i] == s.drop_last()[i]);
        }
    }
}

/// The implication database: for each symbol, the formula that holding it requires.
#[derive(Clone, Debug)]
pub struct Products {
    pub entries: Vec<(Sym, Product)>,
}

impl View for Products {
    type V = Map<Sym, Seq<Set<Sym>>>;

    open spec fn view(&self) -> Map<Sym, Seq<Set<Sym>>> {
        to_map(self.entries@)
    }
}

impl Products {
    pub open spec fn wf(&self) -> bool {
        &&& unique_keys(self.entries@)
        &&& forall|i: int| 0 <= i < self.entries@.len() ==> (#[trigger] self.entries@[i]).1.wf()
    }

    /// The database holding the given entries; of two entries for one symbol the
    /// later one is kept.
    pub fn from_entries(entries: Vec<(Sym, Product)>) -> (r: Products)
        requires
            forall|i: int| 0 <= i < entries@.len() ==> (#[trigger] entries@[i]).1.wf(),
        ensures
            r.wf(),
            r@ == to_map(entries@),
    {
        let mut kept: Vec<(Sym, Product)> = Vec::new();
        let mut rest = entries;
        let ghost orig = rest@;
        let ghost n = orig.len();
        let mut i: usize = rest.len();
        // Walk from the end so that the last entry for a key is the one kept.
        while i > 0
            invariant
                i <= n,
                n == orig.len(),
                rest.len() == i,
                rest@ == orig.take(i as int),
                forall|k: int| 0 <= k < orig.len() ==> (#[trigger] orig[k]).1.wf(),
                unique_keys(kept@),
                forall|k: int| 0 <= k < kept@.len() ==> (#[trigger] kept@[k]).1.wf(),
                to_map(kept@) == to_map(orig.skip(i as int)),
            decreases i,
        {
            let entry = rest.pop().unwrap();
            i = i - 1;
            proof {
                assert(orig.take(i as int + 1).last() == orig[i as int]);
                assert(orig.take(i as int + 1).drop_last() =~= orig.take(i as int));
                lemma_to_map(kept@);
            }
            let mut found = false;
            let mut k: usize = 0;
            while k < kept.len()
                invariant
                    k <= kept.len(),
                    !found ==> forall|m: int| 0 <= m < k ==> kept@[m].0 != entry.0,
                    found ==> exists|m: int| 0 <= m < kept@.len() && kept@[m].0 == entry.0,
                decreases kept.len() - k,
            {
                if kept[k].0 == entry.0 {
                    found = true;
                }
                k = k + 1;
            }
            proof {
                lemma_to_map_prepend(orig, i as int);
            }
            if !found {
                let ghost old_kept = kept@;
                kept.push(entry);
                proof {
                    assert(kept@.drop_last() =~= old_kept);
                    assert(to_map(kept@) == to_map(old_kept).insert(entry.0, entry.1@));
                    lemma_to_map(old_kept);
                    assert(to_map(orig.skip(i as int)) =~= to_map(old_kept).insert(entry.0, entry.1@));
                }
            } else {
                proof {
                    lemma_to_map(kept@);
                    assert(to_map(orig.skip(i as int)) =~= to_map(kept@));
                }
            }
        }
        assert(orig.skip(0) =~= orig);
        Products { entries: kept }
    }

    /// The formula of a symbol, if it has one.
    pub fn get(&self, symbol: Sym) -> (r: Option<&Product>)
        requires
            self.wf(),
        ensures
            match r {
                Some(p) => self@.contains_key(symbol) && p@ == self@[symbol] && p.wf(),
                None => !self@.contains_key(symbol),
            },
    {
        proof {
            lemma_to_map(self.entries@);
        }
        let mut i: usize = 0;
        while i < self.entries.len()
            invariant
                i <= self.entries.len(),
                self.wf(),
                forall|k: int| 0 <= k < i ==> self.entries@[k].0 != symbol,
                forall|k: Sym| to_map(self.entries@).contains_key(k) <==> exists|m: int| 0 <= m < self.entries@.len() && self.entries@[m].0 == k,
                forall|m: int| 0 <= m < self.entries@.len() ==> to_map(self.entries@)[#[trigger] self.entries@[m].0] == self.entries@[m].1@,
            decreases self.entries.len() - i,
        {
            if self.entries[i].0 == symbol {
                assert(self.entries@[i as int].1.wf());
                assert(to_map(self.entries@)[self.entries@[i as int].0] == self.entries@[i as int].1@);
                return Some(&self.entries[i].1);
            }
            i = i + 1;
        }
        None
    }
}

/// Prepending an entry for a key keeps the map's later entries and adds the key
/// where no later entry has it.
pub proof fn lemma_to_map_prepend(s: Seq<(Sym, Product)>, i: int)
    requires
        0 <= i < s.len(),
    ensures
        forall|k: Sym| k != s[i].0 ==> (to_map(s.skip(i)).contains_key(k) <==> to_map(s.skip(i + 1)).contains_key(k)),
        forall|k: Sym| k != s[i].0 && to_map(s.skip(i + 1)).contains_key(k) ==> to_map(s.skip(i))[k] == to_map(s.skip(i + 1))[k],
        to_map(s.skip(i)).contains_key(s[i].0),
        to_map(s.skip(i + 1)).contains_key(s[i].0) ==> to_map(s.skip(i))[s[i].0] == to_map(s.skip(i + 1))[s[i].0],
        !to_map(s.skip(i + 1)).contains_key(s[i].0) ==> to_map(s.skip(i))[s[i].0] == s[i].1@,
    decreases s.len() - i,
{
    if i == s.len() - 1 {
        assert(s.skip(i + 1).len() == 0);
        assert(s.skip(i).drop_last() =~= s.skip(i + 1));
    } else {
        let t = s.drop_last();
        lemma_to_map_prepend(t, i);
        assert(s.skip(i).drop_last() =~= t.skip(i));
        assert(s.skip(i + 1).drop_last() =~= t.skip(i + 1));
        assert(s.skip(i).last() == s.last());
        assert(s.skip(i + 1).last() == s.last());
    }
}


/// Lexicographic order on symbol sequences.
pub open spec fn lex_le(a: Seq<Sym>, b: Seq<Sym>) -> bool
    decreases a.len(),
{
    if a.len() == 0 {
        true
    } else if b.len() == 0 {
        false
    } else if a[0] != b[0] {
        a[0] < b[0]
    } else {
        lex_le(a.drop_first(), b.drop_first())
    }
}

pub proof fn lemma_lex_total(a: Seq<Sym>, b: Seq<Sym>)
    ensures
        lex_le(a, b) || lex_le(b, a),
    decreases a.len(),
{
    if a.len() > 0 && b.len() > 0 && a[0] == b[0] {
        lemma_lex_total(a.drop_first(), b.drop_first());
    }
}

pub proof fn lemma_lex_trans(a: Seq<Sym>, b: Seq<Sym>, c: Seq<Sym>)
    requires
        lex_le(a, b),
        lex_le(b, c),
    ensures
        lex_le(a, c),
    decreases a.len(),
{
    if a.len() > 0 && b.len() > 0 && c.len() > 0 && a[0] == b[0] && b[0] == c[0] {
        lemma_lex_trans(a.drop_first(), b.drop_first(), c.drop_first());
    }
}

/// The symbol sequences of the clauses.
pub open spec fn inners(s: Seq<Sum>) -> Seq<Seq<Sym>> {
    s.map_values(|c: Sum| c.inner@)
}

/// True when `a` comes before or with `b` in lexicographic order.
pub fn lex_le_exec(a: &Sum, b: &Sum) -> (r: bool)
    ensures
        r == lex_le(a.inner@, b.inner@),
{
    let mut i: usize = 0;
    assert(a.inner@.skip(0) =~= a.inner@);
    assert(b.inner@.skip(0) =~= b.inner@);
    while i < a.inner.len() && i < b.inner.len()
        invariant
            i <= a.inner@.len(),
            i <= b.inner@.len(),
            a.inner@.take(i as int) == b.inner@.take(i as int),
            lex_le(a.inner@, b.inner@) == lex_le(a.inner@.skip(i as int), b.inner@.skip(i as int)),
        decreases a.inner@.len() - i,
    {
        if a.inner[i] != b.inner[i] {
            return a.inner[i] < b.inner[i];
        }
        proof {
            let sa = a.inner@.skip(i as int);
            let sb = b.inner@.skip(i as int);
            assert(sa.drop_first() =~= a.inner@.skip(i as int + 1));
            assert(sb.drop_first() =~= b.inner@.skip(i as int + 1));
            assert(a.inner@.take(i as int + 1) =~= a.inner@.take(i as int).push(a.inner@[i as int]));
            assert(b.inner@.take(i as int + 1) =~= b.inner@.take(i as int).push(b.inner@[i as int]));
        }
        i = i + 1;
    }
    i >= a.inner.len()
}

impl Product {
    /// The clauses in lexicographic order of their symbols.
    pub fn canonical(self) -> (r: Product)
        requires
            self.wf(),
        ensures
            r.wf(),
            inners(r.clauses@).len() == inners(self.clauses@).len(),
            inners(r.clauses@).to_multiset() == inners(self.clauses@).to_multiset(),
            forall|i: int, j: int| 0 <= i < j < r.clauses@.len() ==> lex_le(#[trigger] r.clauses@[i].inner@, #[trigger] r.clauses@[j].inner@),
            symbol_count(r@) == symbol_count(self@),
    {
        let ghost orig = self.clauses@;
        let mut rest = self.clauses;
        let mut out: Vec<Sum> = Vec::new();
        proof {
            assert(inners(out@) =~= Seq::<Seq<Sym>>::empty());
            inners(out@).to_multiset_ensures();
            assert(inners(out@).to_multiset() =~= Multiset::<Seq<Sym>>::empty());
            assert(inners(out@).to_multiset().add(inners(rest@).to_multiset()) =~= inners(orig).to_multiset());
            assert(sets_of(out@) =~= Seq::<Set<Sym>>::empty());
        }
        while rest.len() > 0
            invariant
                symbol_count(sets_of(out@)) + symbol_count(sets_of(rest@)) == symbol_count(sets_of(orig)),
                all_wf(rest@),
                all_wf(out@),
                inners(out@).to_multiset().add(inners(rest@).to_multiset()) == inners(orig).to_multiset(),
                out@.len() + rest@.len() == orig.len(),
                forall|i: int, j: int| 0 <= i < j < out@.len() ==> lex_le(#[trigger] out@[i].inner@, #[trigger] out@[j].inner@),
                forall|i: int, j: int| 0 <= i < out@.len() && 0 <= j < rest@.len() ==> lex_le(#[trigger] out@[i].inner@, #[trigger] rest@[j].inner@),
            decreases rest@.len(),
        {
            let mut best: usize = 0;
            let mut k: usize = 1;
            proof {
                lemma_lex_refl(rest@[0].inner@);
            }
            while k < rest.len()
                invariant
                    0 < rest@.len(),
                    best < rest@.len(),
                    1 <= k <= rest@.len(),
                    forall|j: int| 0 <= j < k ==> lex_le(rest@[best as int].inner@, #[trigger] rest@[j].inner@),
                decreases rest@.len() - k,
            {
                if !lex_le_exec(&rest[best], &rest[k]) {
                    proof {
                        lemma_lex_total(rest@[best as int].inner@, rest@[k as int].inner@);
                        assert forall|j: int| 0 <= j < k + 1 implies lex_le(rest@[k as int].inner@, #[trigger] rest@[j].inner@) by {
                            if j < k {
                                lemma_lex_trans(rest@[k as int].inner@, rest@[best as int].inner@, rest@[j].inner@);
                            } else {
                                lemma_lex_refl(rest@[k as int].inner@);
                            }
                        }
                    }
                    best = k;
                }
                k = k + 1;
            }
            let ghost old_rest = rest@;
            let ghost old_out = out@;
            let item = rest.remove(best);
            proof {
                assert(sets_of(rest@) =~= sets_of(old_rest).remove(best as int));
                lemma_count_remove(sets_of(old_rest), best as int);
                assert(rest@ == old_rest.remove(best as int));
                assert(inners(old_rest) =~= inners(rest@).insert(best as int, item.inner@));
                vstd::seq_lib::to_multiset_insert(inners(rest@), best as int, item.inner@);
            }
            out.push(item);
            proof {
                assert(inners(out@) =~= inners(old_out).push(item.inner@));
                assert(sets_of(out@).drop_last() =~= sets_of(old_out));
                vstd::seq_lib::to_multiset_build(inners(old_out), item.inner@);
                assert(inners(out@).to_multiset().add(inners(rest@).to_multiset()) =~= inners(orig).to_multiset());
                assert(all_wf(rest@)) by {
                    assert forall|i: int| 0 <= i < rest@.len() implies (#[trigger] rest@[i]).wf() by {
                        if i < best {
                            assert(rest@[i] == old_rest[i]);
                        } else {
                            assert(rest@[i] == old_rest[i + 1]);
                        }
                    }
                }
                assert(all_wf(out@)) by {
                    assert forall|i: int| 0 <= i < out@.len() implies (#[trigger] out@[i]).wf() by {
                        if i < old_out.len() {
                            assert(out@[i] == old_out[i]);
                        }
                    }
                }
                assert forall|i: int, j: int| 0 <= i < j < out@.len() implies lex_le(#[trigger] out@[i].inner@, #[trigger] out@[j].inner@) by {
                    if j < old_out.len() {
                        assert(out@[i] == old_out[i]);
                        assert(out@[j] == old_out[j]);
                    } else {
                        assert(out@[i] == old_out[i]);
                        assert(old_rest[best as int] == item);
                    }
                }
                assert forall|i: int, j: int| 0 <= i < out@.len() && 0 <= j < rest@.len() implies lex_le(#[trigger] out@[i].inner@, #[trigger] rest@[j].inner@) by {
                    let jj = if j < best { j } else { j + 1 };
                    assert(rest@[j] == old_rest[jj]);
                    if i < old_out.len() {
                        assert(out@[i] == old_out[i]);
                    } else {
                        assert(out@[i] == item);
                        assert(old_rest[best as int] == item);
                    }
                }
            }
        }
        proof {
            assert(inners(rest@) =~= Seq::<Seq<Sym>>::empty());
            inners(rest@).to_multiset_ensures();
            assert(inners(rest@).to_multiset() =~= Multiset::<Seq<Sym>>::empty());
            assert(inners(out@).to_multiset() =~= inners(orig).to_multiset());
            assert(sets_of(rest@) =~= Seq::<Set<Sym>>::empty());
        }
        Product { clauses: out }
    }
}

pub proof fn lemma_lex_refl(a: Seq<Sym>)
    ensures
        lex_le(a, a),
    decreases a.len(),
{
    if a.len() > 0 {
        lemma_lex_refl(a.drop_first());
    }
}

} // verus!
