use vstd::prelude::*;
use crate::sum::{Sum, Sym, lemma_sorted_len};
use crate::logic::{Product, Products, to_map, lemma_to_map, unique_keys, inners, lex_le, lex_le_exec, lemma_lex_trans, sets_of};
use crate::oracle::{Db, expandable, implied, reaches, step, substitute, viable, is_forbidden};

verus! {

/// The number of symbols over all clauses of a formula.
pub open spec fn symbol_count(p: Seq<Set<Sym>>) -> nat
    decreases p.len(),
{
    if p.len() == 0 {
        0
    } else {
        symbol_count(p.drop_last()) + p.last().len()
    }
}

/// The size that minimization brings down: symbols plus clauses, over all entries.
pub open spec fn weight(es: Seq<(Sym, Product)>) -> nat
    decreases es.len(),
{
    if es.len() == 0 {
        0
    } else {
        weight(es.drop_last()) + symbol_count(es.last().1@) + es.last().1@.len()
    }
}

/// Symbol `s` of clause `j` of `k`'s formula can go: holding `s` alone already
/// guarantees one of the clause's other symbols.
pub open spec fn redundant_symbol(db: Db, k: Sym, j: int, s: Sym) -> bool {
    &&& db.contains_key(k)
    &&& 0 <= j < db[k].len()
    &&& db[k][j].contains(s)
    &&& implied(db, Set::empty().insert(s), db[k][j].remove(s), None)
}

/// Clause `j` of `k`'s formula can go: holding `k` guarantees it without using it.
pub open spec fn redundant_clause(db: Db, k: Sym, j: int) -> bool {
    &&& db.contains_key(k)
    &&& 0 <= j < db[k].len()
    &&& implied(db, Set::empty().insert(k), db[k][j], Some((k, j as usize)))
}

/// Nothing is left to remove.
pub open spec fn minimal(db: Db) -> bool {
    &&& forall|k: Sym, j: int, s: Sym| !#[trigger] redundant_symbol(db, k, j, s)
    &&& forall|k: Sym, j: int| !#[trigger] redundant_clause(db, k, j)
}

/// No formula holds an empty clause, which could never be met.
pub open spec fn no_empty_clause(db: Db) -> bool {
    forall|k: Sym, j: int| db.contains_key(k) && 0 <= j < db[k].len() ==> (#[trigger] db[k][j]) != Set::<Sym>::empty()
}

/// No formula holds the same clause twice.
pub open spec fn no_duplicate_clause(db: Db) -> bool {
    forall|k: Sym, i: int, j: int| db.contains_key(k) && 0 <= i < j < db[k].len() ==> #[trigger] db[k][i] != #[trigger] db[k][j]
}

/// Some symbol of the clause is true under the assignment `sigma`, given as the set
/// of true symbols.
pub open spec fn holds(sigma: Set<Sym>, c: Set<Sym>) -> bool {
    exists|x: Sym| c.contains(x) && sigma.contains(x)
}

/// Under `sigma` every true symbol meets every clause of its formula.
pub open spec fn model(db: Db, sigma: Set<Sym>) -> bool {
    forall|k: Sym, j: int| db.contains_key(k) && sigma.contains(k) && 0 <= j < db[k].len() ==> holds(sigma, #[trigger] db[k][j])
}

/// Under `sigma` every clause that a search may use is met when its symbol is true.
pub open spec fn usable_met(db: Db, forbid: Option<(Sym, usize)>, sigma: Set<Sym>) -> bool {
    forall|k: Sym, j: int| db.contains_key(k) && sigma.contains(k) && 0 <= j < db[k].len() && !is_forbidden(forbid, k, j)
        ==> holds(sigma, #[trigger] db[k][j])
}

/// A search path keeps a true symbol among its candidates.
pub proof fn lemma_path_sound(db: Db, rhs: Set<Sym>, forbid: Option<(Sym, usize)>, sigma: Set<Sym>, c: Set<Sym>, d: Set<Sym>, n: nat)
    requires
        reaches(db, rhs, forbid, c, d, n),
        holds(sigma, c),
        usable_met(db, forbid, sigma),
    ensures
        holds(sigma, d),
    decreases n,
{
    if n > 0 {
        let m = choose|m: Set<Sym>| #[trigger] step(db, rhs, forbid, c, m) && reaches(db, rhs, forbid, m, d, (n - 1) as nat);
        let (t, i) = choose|t: Sym, i: int|
            #![trigger substitute(db, c, t, i)]
            c.contains(t) && db.contains_key(t) && 0 <= i < db[t].len() && !is_forbidden(forbid, t, i)
                && m == substitute(db, c, t, i) && viable(db, rhs, m);
        let x = choose|x: Sym| c.contains(x) && sigma.contains(x);
        if x != t {
            assert(m.contains(x));
        } else {
            assert(holds(sigma, db[t][i]));
            let y = choose|y: Sym| db[t][i].contains(y) && sigma.contains(y);
            assert(m.contains(y));
        }
        lemma_path_sound(db, rhs, forbid, sigma, m, d, (n - 1) as nat);
    }
}

/// What the search shows implied holds under every assignment that meets the
/// clauses it may use.
pub proof fn lemma_implied_sound(db: Db, lhs: Set<Sym>, rhs: Set<Sym>, forbid: Option<(Sym, usize)>, sigma: Set<Sym>)
    requires
        implied(db, lhs, rhs, forbid),
        holds(sigma, lhs),
        usable_met(db, forbid, sigma),
    ensures
        holds(sigma, rhs),
{
    let (n, d) = choose|n: nat, d: Set<Sym>| #[trigger] reaches(db, rhs, forbid, lhs, d, n) && d.subset_of(rhs);
    lemma_path_sound(db, rhs, forbid, sigma, lhs, d, n);
    let y = choose|y: Sym| d.contains(y) && sigma.contains(y);
    assert(rhs.contains(y));
}

/// Removing a redundant symbol keeps the models of the database.
pub proof fn lemma_symbol_removal_sound(db: Db, k: Sym, j: int, s: Sym, sigma: Set<Sym>)
    requires
        redundant_symbol(db, k, j, s),
    ensures
        model(db, sigma) == model(db.insert(k, db[k].update(j, db[k][j].remove(s))), sigma),
{
    let db2 = db.insert(k, db[k].update(j, db[k][j].remove(s)));
    if model(db, sigma) {
        assert forall|kk: Sym, jj: int| db2.contains_key(kk) && sigma.contains(kk) && 0 <= jj < db2[kk].len() implies holds(sigma, #[trigger] db2[kk][jj]) by {
            assert(holds(sigma, db[kk][jj]));
            if kk == k && jj == j {
                let x = choose|x: Sym| db[k][j].contains(x) && sigma.contains(x);
                if x == s {
                    let one = Set::empty().insert(s);
                    assert(one.contains(s));
                    assert(usable_met(db, None, sigma));
                    lemma_implied_sound(db, one, db[k][j].remove(s), None, sigma);
                } else {
                    assert(db2[kk][jj].contains(x));
                }
            }
        }
    }
    if model(db2, sigma) {
        assert forall|kk: Sym, jj: int| db.contains_key(kk) && sigma.contains(kk) && 0 <= jj < db[kk].len() implies holds(sigma, #[trigger] db[kk][jj]) by {
            assert(holds(sigma, db2[kk][jj]));
            if kk == k && jj == j {
                let x = choose|x: Sym| db2[k][j].contains(x) && sigma.contains(x);
                assert(db[kk][jj].contains(x));
            }
        }
    }
}

/// Removing a redundant clause keeps the models of the database.
pub proof fn lemma_clause_removal_sound(db: Db, k: Sym, j: int, sigma: Set<Sym>)
    requires
        redundant_clause(db, k, j),
        db[k].len() <= usize::MAX,
    ensures
        model(db, sigma) == model(db.insert(k, db[k].remove(j)), sigma),
{
    let db2 = db.insert(k, db[k].remove(j));
    if model(db, sigma) {
        assert forall|kk: Sym, jj: int| db2.contains_key(kk) && sigma.contains(kk) && 0 <= jj < db2[kk].len() implies holds(sigma, #[trigger] db2[kk][jj]) by {
            if kk == k {
                if jj < j {
                    assert(db2[kk][jj] == db[kk][jj]);
                } else {
                    assert(db2[kk][jj] == db[kk][jj + 1]);
                }
            }
            assert(holds(sigma, db[kk][jj]) || kk == k);
        }
    }
    if model(db2, sigma) {
        assert(usable_met(db, Some((k, j as usize)), sigma)) by {
            assert forall|kk: Sym, jj: int| db.contains_key(kk) && sigma.contains(kk) && 0 <= jj < db[kk].len() && !is_forbidden(Some((k, j as usize)), kk, jj)
                implies holds(sigma, #[trigger] db[kk][jj]) by {
                if kk == k {
                    if jj < j {
                        assert(db2[kk][jj] == db[kk][jj]);
                    } else {
                        assert(db2[kk][jj - 1] == db[kk][jj]);
                    }
                } else {
                    assert(db2[kk] == db[kk]);
                }
            }
        }
        assert forall|kk: Sym, jj: int| db.contains_key(kk) && sigma.contains(kk) && 0 <= jj < db[kk].len() implies holds(sigma, #[trigger] db[kk][jj]) by {
            if kk == k && jj == j {
                let one = Set::empty().insert(k);
                assert(one.contains(k));
                lemma_implied_sound(db, one, db[k][j], Some((k, j as usize)), sigma);
            } else {
                assert(!is_forbidden(Some((k, j as usize)), kk, jj));
            }
        }
    }
}

/// Every clause of `b` lies within a clause of the same name in `a`: `b` is got from
/// `a` by removing clauses and symbols only.
pub open spec fn derived(a: Db, b: Db) -> bool {
    forall|k: Sym, i: int| b.contains_key(k) && 0 <= i < b[k].len() ==> #[trigger] within(b[k], a[k], i)
}

/// Clause `j` of `p` lies within some clause of `q`.
pub open spec fn within(p: Seq<Set<Sym>>, q: Seq<Set<Sym>>, j: int) -> bool {
    exists|i1: int| 0 <= i1 < q.len() && p[j].subset_of(q[i1])
}

/// Replacing one formula by clauses that lie within its clauses keeps `derived`.
proof fn lemma_derived_step(orig: Db, a: Db, b: Db, k: Sym, p: Seq<Set<Sym>>)
    requires
        derived(orig, a),
        a.dom() == orig.dom(),
        a.contains_key(k),
        b == a.insert(k, p),
        forall|j: int| 0 <= j < p.len() ==> #[trigger] within(p, a[k], j),
    ensures
        derived(orig, b),
{
    assert forall|kk: Sym, i: int| b.contains_key(kk) && 0 <= i < b[kk].len() implies #[trigger] within(b[kk], orig[kk], i) by {
        if kk == k {
            assert(within(p, a[k], i));
            let i1 = choose|i1: int| 0 <= i1 < a[k].len() && p[i].subset_of(a[k][i1]);
            assert(within(a[k], orig[k], i1));
            let i0 = choose|i0: int| 0 <= i0 < orig[k].len() && a[k][i1].subset_of(orig[k][i0]);
            assert(b[kk][i].subset_of(orig[kk][i0]));
        } else {
            assert(b[kk] == a[kk]);
            assert(within(a[kk], orig[kk], i));
        }
    }
}

/// `b` holds the clauses of `a`, in some order.
pub open spec fn same_clauses(a: Seq<Set<Sym>>, b: Seq<Set<Sym>>) -> bool {
    &&& a.len() == b.len()
    &&& symbol_count(a) == symbol_count(b)
    &&& forall|i: int| 0 <= i < a.len() ==> b.contains(#[trigger] a[i])
    &&& forall|i: int| 0 <= i < b.len() ==> a.contains(#[trigger] b[i])
}

/// `b` has the names of `a`, each formula with its clauses in some order.
pub open spec fn rearranged(a: Db, b: Db) -> bool {
    &&& a.dom() == b.dom()
    &&& forall|k: Sym| a.contains_key(k) ==> #[trigger] same_clauses(a[k], b[k])
}

/// The clause excluded in `a` is the one excluded in `b`.
pub open spec fn forbid_match(a: Db, b: Db, fa: Option<(Sym, usize)>, fb: Option<(Sym, usize)>) -> bool {
    forall|k: Sym, i: int, i2: int|
        #![trigger a[k][i], b[k][i2]]
        a.contains_key(k) && 0 <= i < a[k].len() && 0 <= i2 < b[k].len() && a[k][i] == b[k][i2]
            ==> (is_forbidden(fa, k, i) <==> is_forbidden(fb, k, i2))
}

proof fn lemma_step_rearranged(a: Db, b: Db, rhs: Set<Sym>, fa: Option<(Sym, usize)>, fb: Option<(Sym, usize)>, c: Set<Sym>, d: Set<Sym>)
    requires
        rearranged(a, b),
        forbid_match(a, b, fa, fb),
        step(a, rhs, fa, c, d),
    ensures
        step(b, rhs, fb, c, d),
{
    let (s, i) = choose|s: Sym, i: int|
        #![trigger substitute(a, c, s, i)]
        c.contains(s) && a.contains_key(s) && 0 <= i < a[s].len() && !is_forbidden(fa, s, i)
            && d == substitute(a, c, s, i) && viable(a, rhs, d);
    assert(same_clauses(a[s], b[s]));
    assert(b[s].contains(a[s][i]));
    let i2 = choose|i2: int| 0 <= i2 < b[s].len() && b[s][i2] == a[s][i];
    assert(!is_forbidden(fb, s, i2));
    assert(substitute(b, c, s, i2) == d);
    assert(viable(b, rhs, d)) by {
        assert forall|x: Sym| #[trigger] d.contains(x) implies rhs.contains(x) || expandable(b, x) by {
            if !rhs.contains(x) {
                assert(expandable(a, x));
                assert(same_clauses(a[x], b[x]));
            }
        }
    }
}

proof fn lemma_reaches_rearranged(a: Db, b: Db, rhs: Set<Sym>, fa: Option<(Sym, usize)>, fb: Option<(Sym, usize)>, c: Set<Sym>, d: Set<Sym>, n: nat)
    requires
        rearranged(a, b),
        forbid_match(a, b, fa, fb),
        reaches(a, rhs, fa, c, d, n),
    ensures
        reaches(b, rhs, fb, c, d, n),
    decreases n,
{
    if n > 0 {
        let m = choose|m: Set<Sym>| #[trigger] step(a, rhs, fa, c, m) && reaches(a, rhs, fa, m, d, (n - 1) as nat);
        lemma_step_rearranged(a, b, rhs, fa, fb, c, m);
        lemma_reaches_rearranged(a, b, rhs, fa, fb, m, d, (n - 1) as nat);
    }
}

proof fn lemma_implied_rearranged(a: Db, b: Db, lhs: Set<Sym>, rhs: Set<Sym>, fa: Option<(Sym, usize)>, fb: Option<(Sym, usize)>)
    requires
        rearranged(a, b),
        forbid_match(a, b, fa, fb),
        implied(a, lhs, rhs, fa),
    ensures
        implied(b, lhs, rhs, fb),
{
    let (n, d) = choose|n: nat, d: Set<Sym>| #[trigger] reaches(a, rhs, fa, lhs, d, n) && d.subset_of(rhs);
    lemma_reaches_rearranged(a, b, rhs, fa, fb, lhs, d, n);
}

/// Reordering the clauses of a minimal database keeps it minimal, keeps its models,
/// and keeps it within and no larger than `orig`.
pub proof fn lemma_rearranged(orig: Db, a: Db, b: Db)
    requires
        rearranged(a, b),
        minimal(a),
        no_duplicate_clause(b),
        forall|k: Sym| #[trigger] a.contains_key(k) ==> a[k].len() <= usize::MAX,
        shrunk(orig, a),
        derived(orig, a),
    ensures
        minimal(b),
        shrunk(orig, b),
        derived(orig, b),
        forall|sigma: Set<Sym>| model(a, sigma) == model(b, sigma),
        forall|n: nat| db_below(a, n) ==> db_below(b, n),
        no_empty_clause(a) ==> no_empty_clause(b),
{
    lemma_minimal_no_duplicates(a);
    assert(rearranged(b, a)) by {
        assert forall|k: Sym| b.contains_key(k) implies #[trigger] same_clauses(b[k], a[k]) by {
            assert(same_clauses(a[k], b[k]));
        }
    }
    assert forall|k: Sym, j2: int, s: Sym| !#[trigger] redundant_symbol(b, k, j2, s) by {
        if redundant_symbol(b, k, j2, s) {
            assert(same_clauses(a[k], b[k]));
            assert(a[k].contains(b[k][j2]));
            let j = choose|j: int| 0 <= j < a[k].len() && a[k][j] == b[k][j2];
            assert(forbid_match(b, a, None, None));
            lemma_implied_rearranged(b, a, Set::empty().insert(s), b[k][j2].remove(s), None, None);
            assert(redundant_symbol(a, k, j, s));
        }
    }
    assert forall|k: Sym, j2: int| !#[trigger] redundant_clause(b, k, j2) by {
        if redundant_clause(b, k, j2) {
            assert(same_clauses(a[k], b[k]));
            assert(a[k].contains(b[k][j2]));
            let j = choose|j: int| 0 <= j < a[k].len() && a[k][j] == b[k][j2];
            let fb = Some((k, j2 as usize));
            let fa = Some((k, j as usize));
            assert(forbid_match(b, a, fb, fa)) by {
                assert forall|kk: Sym, i2: int, i: int|
                    #![trigger b[kk][i2], a[kk][i]]
                    b.contains_key(kk) && 0 <= i2 < b[kk].len() && 0 <= i < a[kk].len() && b[kk][i2] == a[kk][i]
                        implies (is_forbidden(fb, kk, i2) <==> is_forbidden(fa, kk, i)) by {
                    if kk == k {
                        if i2 == j2 && i != j {
                            assert(a[k][i] == a[k][j]);
                        }
                        if i == j && i2 != j2 {
                            assert(b[k][i2] == b[k][j2]);
                        }
                    }
                }
            }
            lemma_implied_rearranged(b, a, Set::empty().insert(k), b[k][j2], fb, fa);
            assert(redundant_clause(a, k, j));
        }
    }
    assert forall|k: Sym| #[trigger] b.contains_key(k) implies b[k].len() <= orig[k].len() && symbol_count(b[k]) <= symbol_count(orig[k]) by {
        assert(same_clauses(a[k], b[k]));
    }
    assert forall|k: Sym, i: int| b.contains_key(k) && 0 <= i < b[k].len() implies #[trigger] within(b[k], orig[k], i) by {
        assert(same_clauses(a[k], b[k]));
        assert(a[k].contains(b[k][i]));
        let j = choose|j: int| 0 <= j < a[k].len() && a[k][j] == b[k][i];
        assert(within(a[k], orig[k], j));
    }
    assert forall|sigma: Set<Sym>| model(a, sigma) == model(b, sigma) by {
        if model(a, sigma) {
            assert forall|k: Sym, j: int| b.contains_key(k) && sigma.contains(k) && 0 <= j < b[k].len() implies holds(sigma, #[trigger] b[k][j]) by {
                assert(same_clauses(a[k], b[k]));
                assert(a[k].contains(b[k][j]));
                let i = choose|i: int| 0 <= i < a[k].len() && a[k][i] == b[k][j];
                assert(holds(sigma, a[k][i]));
            }
        }
        if model(b, sigma) {
            assert forall|k: Sym, j: int| a.contains_key(k) && sigma.contains(k) && 0 <= j < a[k].len() implies holds(sigma, #[trigger] a[k][j]) by {
                assert(same_clauses(a[k], b[k]));
                assert(b[k].contains(a[k][j]));
                let i = choose|i: int| 0 <= i < b[k].len() && b[k][i] == a[k][j];
                assert(holds(sigma, b[k][i]));
            }
        }
    }
    assert forall|n: nat| db_below(a, n) implies db_below(b, n) by {
        assert forall|k: Sym, i: int, x: Sym| b.contains_key(k) && 0 <= i < b[k].len() && #[trigger] b[k][i].contains(x) implies x < n by {
            assert(same_clauses(a[k], b[k]));
            assert(a[k].contains(b[k][i]));
            let j = choose|j: int| 0 <= j < a[k].len() && a[k][j] == b[k][i];
            assert(a[k][j].contains(x));
        }
    }
    if no_empty_clause(a) {
        assert forall|k: Sym, i: int| b.contains_key(k) && 0 <= i < b[k].len() implies (#[trigger] b[k][i]) != Set::<Sym>::empty() by {
            assert(same_clauses(a[k], b[k]));
            assert(a[k].contains(b[k][i]));
            let j = choose|j: int| 0 <= j < a[k].len() && a[k][j] == b[k][i];
        }
    }
}

/// The clauses are in lexicographic order of their symbols.
pub open spec fn ordered_clauses(cs: Seq<Sum>) -> bool {
    forall|i: int, j: int| 0 <= i < j < cs.len() ==> lex_le(#[trigger] cs[i].inner@, #[trigger] cs[j].inner@)
}

/// No clause occurs twice.
pub open spec fn distinct_clauses(p: Seq<Set<Sym>>) -> bool {
    forall|i: int, j: int| 0 <= i < j < p.len() ==> #[trigger] p[i] != #[trigger] p[j]
}

/// True when the clauses are in lexicographic order.
pub fn is_ordered(p: &Product) -> (r: bool)
    ensures
        r == ordered_clauses(p.clauses@),
{
    let cs = &p.clauses;
    if cs.len() < 2 {
        return true;
    }
    let mut k: usize = 1;
    while k < cs.len()
        invariant
            1 <= k <= cs@.len(),
            cs@ == p.clauses@,
            forall|i: int, j: int| 0 <= i < j < k ==> lex_le(#[trigger] cs@[i].inner@, #[trigger] cs@[j].inner@),
        decreases cs@.len() - k,
    {
        if !lex_le_exec(&cs[k - 1], &cs[k]) {
            assert(!lex_le(cs@[k - 1].inner@, cs@[k as int].inner@));
            assert(!ordered_clauses(cs@));
            return false;
        }
        proof {
            assert forall|i: int, j: int| 0 <= i < j < k + 1 implies lex_le(#[trigger] cs@[i].inner@, #[trigger] cs@[j].inner@) by {
                if j == k && i < k - 1 {
                    lemma_lex_trans(cs@[i].inner@, cs@[k - 1].inner@, cs@[k as int].inner@);
                }
            }
        }
        k = k + 1;
    }
    true
}

/// Distinct clauses in strict order keep distinct symbol sequences, and back.
proof fn lemma_distinct_inners(cs: Seq<Sum>)
    requires
        forall|i: int| 0 <= i < cs.len() ==> (#[trigger] cs[i]).wf(),
    ensures
        distinct_clauses(sets_of(cs)) <==> inners(cs).no_duplicates(),
{
    if distinct_clauses(sets_of(cs)) {
        assert forall|i: int, j: int| 0 <= i < inners(cs).len() && 0 <= j < inners(cs).len() && i != j implies inners(cs)[i] != inners(cs)[j] by {
            if i < j {
                assert(sets_of(cs)[i] != sets_of(cs)[j]);
            } else {
                assert(sets_of(cs)[j] != sets_of(cs)[i]);
            }
        }
    }
    if inners(cs).no_duplicates() {
        assert forall|i: int, j: int| 0 <= i < j < sets_of(cs).len() implies #[trigger] sets_of(cs)[i] != #[trigger] sets_of(cs)[j] by {
            if sets_of(cs)[i] == sets_of(cs)[j] {
                assert(cs[i].wf() && cs[j].wf());
                crate::sum::lemma_sorted_unique(cs[i].inner@, cs[j].inner@);
                assert(inners(cs)[i] == inners(cs)[j]);
            }
        }
    }
}

/// What canonical ordering keeps of a formula with distinct clauses.
proof fn lemma_canonical_same(p: Product, c: Product)
    requires
        p.wf(),
        c.wf(),
        inners(c.clauses@).len() == inners(p.clauses@).len(),
        inners(c.clauses@).to_multiset() == inners(p.clauses@).to_multiset(),
        symbol_count(c@) == symbol_count(p@),
        distinct_clauses(p@),
    ensures
        same_clauses(p@, c@),
        distinct_clauses(c@),
{
    inners(c.clauses@).to_multiset_ensures();
    inners(p.clauses@).to_multiset_ensures();
    assert forall|i: int| 0 <= i < c@.len() implies p@.contains(#[trigger] c@[i]) by {
        let x = c.clauses@[i].inner@;
        assert(inners(c.clauses@)[i] == x);
        assert(inners(c.clauses@).to_multiset().count(x) > 0);
        assert(inners(p.clauses@).contains(x));
        let j = choose|j: int| 0 <= j < inners(p.clauses@).len() && inners(p.clauses@)[j] == x;
        assert(p@[j] == c@[i]);
    }
    assert forall|i: int| 0 <= i < p@.len() implies c@.contains(#[trigger] p@[i]) by {
        let x = p.clauses@[i].inner@;
        assert(inners(p.clauses@)[i] == x);
        assert(inners(p.clauses@).to_multiset().count(x) > 0);
        assert(inners(c.clauses@).contains(x));
        let j = choose|j: int| 0 <= j < inners(c.clauses@).len() && inners(c.clauses@)[j] == x;
        assert(c@[j] == p@[i]);
    }
    lemma_distinct_inners(p.clauses@);
    lemma_distinct_inners(c.clauses@);
    inners(p.clauses@).lemma_multiset_has_no_duplicates();
    inners(c.clauses@).lemma_multiset_has_no_duplicates_conv();
}

/// Every symbol of every formula is below `n`.
pub open spec fn db_below(db: Db, n: nat) -> bool {
    forall|k: Sym, i: int, x: Sym| db.contains_key(k) && 0 <= i < db[k].len() && #[trigger] db[k][i].contains(x) ==> x < n
}

/// Each formula of `b` has no more clauses and no more symbols than that of `a`.
pub open spec fn shrunk(a: Db, b: Db) -> bool {
    &&& a.dom() == b.dom()
    &&& forall|k: Sym| #[trigger] b.contains_key(k) ==> b[k].len() <= a[k].len() && symbol_count(b[k]) <= symbol_count(a[k])
}

pub proof fn lemma_count_update(p: Seq<Set<Sym>>, j: int, x: Set<Sym>)
    requires
        0 <= j < p.len(),
    ensures
        symbol_count(p.update(j, x)) == symbol_count(p) - p[j].len() + x.len(),
    decreases p.len(),
{
    let q = p.update(j, x);
    if j == p.len() - 1 {
        assert(q.drop_last() =~= p.drop_last());
    } else {
        lemma_count_update(p.drop_last(), j, x);
        assert(q.drop_last() =~= p.drop_last().update(j, x));
    }
}

pub proof fn lemma_count_remove(p: Seq<Set<Sym>>, j: int)
    requires
        0 <= j < p.len(),
    ensures
        symbol_count(p.remove(j)) == symbol_count(p) - p[j].len(),
    decreases p.len(),
{
    let q = p.remove(j);
    if j == p.len() - 1 {
        assert(q =~= p.drop_last());
    } else {
        lemma_count_remove(p.drop_last(), j);
        assert(q.drop_last() =~= p.drop_last().remove(j));
        assert(q.last() == p.last());
    }
}

pub proof fn lemma_weight_update(es: Seq<(Sym, Product)>, i: int, e: (Sym, Product))
    requires
        0 <= i < es.len(),
    ensures
        weight(es.update(i, e)) == weight(es) - symbol_count(es[i].1@) - es[i].1@.len() + symbol_count(e.1@) + e.1@.len(),
    decreases es.len(),
{
    let q = es.update(i, e);
    if i == es.len() - 1 {
        assert(q.drop_last() =~= es.drop_last());
    } else {
        lemma_weight_update(es.drop_last(), i, e);
        assert(q.drop_last() =~= es.drop_last().update(i, e));
    }
}

/// Replacing the formula of an entry's key changes the map at that key alone.
pub proof fn lemma_map_update(es: Seq<(Sym, Product)>, i: int, p: Product)
    requires
        unique_keys(es),
        0 <= i < es.len(),
    ensures
        unique_keys(es.update(i, (es[i].0, p))),
        to_map(es.update(i, (es[i].0, p))) == to_map(es).insert(es[i].0, p@),
{
    let q = es.update(i, (es[i].0, p));
    assert(unique_keys(q)) by {
        assert forall|a: int, b: int| 0 <= a < b < q.len() implies q[a].0 != q[b].0 by {
            assert(q[a].0 == es[a].0);
            assert(q[b].0 == es[b].0);
        }
    }
    lemma_to_map(es);
    lemma_to_map(q);
    let m = to_map(es).insert(es[i].0, p@);
    assert forall|k: Sym| to_map(q).contains_key(k) <==> m.contains_key(k) by {
        if to_map(q).contains_key(k) {
            let a = choose|a: int| 0 <= a < q.len() && q[a].0 == k;
            assert(es[a].0 == k);
        }
        if to_map(es).contains_key(k) {
            let a = choose|a: int| 0 <= a < es.len() && es[a].0 == k;
            assert(q[a].0 == k);
        }
        if k == es[i].0 {
            assert(q[i].0 == k);
        }
    }
    assert forall|k: Sym| #[trigger] to_map(q).contains_key(k) implies to_map(q)[k] == m[k] by {
        let a = choose|a: int| 0 <= a < q.len() && q[a].0 == k;
        assert(to_map(q)[q[a].0] == q[a].1@);
        if a != i {
            assert(to_map(es)[es[a].0] == es[a].1@);
        }
    }
    assert(to_map(q) =~= m);
}

/// A path from a nonempty candidate to the empty one passes through an empty clause.
pub proof fn lemma_empty_needs_empty(db: Db, rhs: Set<Sym>, forbid: Option<(Sym, usize)>, c: Set<Sym>, n: nat)
    requires
        reaches(db, rhs, forbid, c, Set::empty(), n),
        c != Set::<Sym>::empty(),
    ensures
        !no_empty_clause(db),
    decreases n,
{
    if n > 0 {
        let m = choose|m: Set<Sym>| #[trigger] step(db, rhs, forbid, c, m) && reaches(db, rhs, forbid, m, Set::empty(), (n - 1) as nat);
        if m == Set::<Sym>::empty() {
            let (s, i) = choose|s: Sym, i: int|
                #![trigger substitute(db, c, s, i)]
                c.contains(s) && db.contains_key(s) && 0 <= i < db[s].len() && !is_forbidden(forbid, s, i)
                    && m == substitute(db, c, s, i) && viable(db, rhs, m);
            assert(db[s][i] =~= Set::<Sym>::empty()) by {
                assert forall|x: Sym| !db[s][i].contains(x) by {
                    if db[s][i].contains(x) {
                        assert(m.contains(x));
                    }
                }
            }
        } else {
            lemma_empty_needs_empty(db, rhs, forbid, m, (n - 1) as nat);
        }
    } else {
        assert(c == Set::<Sym>::empty());
    }
}

/// In a minimal database no formula repeats a clause: the first copy would imply the
/// second.
pub proof fn lemma_minimal_no_duplicates(db: Db)
    requires
        minimal(db),
        forall|k: Sym| #[trigger] db.contains_key(k) ==> db[k].len() <= usize::MAX,
    ensures
        no_duplicate_clause(db),
{
    assert forall|k: Sym, i: int, j: int| db.contains_key(k) && 0 <= i < j < db[k].len() implies #[trigger] db[k][i] != #[trigger] db[k][j] by {
        if db[k][i] == db[k][j] {
            let lhs = Set::empty().insert(k);
            let forbid = Some((k, j as usize));
            let d = db[k][i];
            assert(substitute(db, lhs, k, i) =~= d);
            assert(step(db, d, forbid, lhs, d));
            assert(reaches(db, d, forbid, d, d, 0));
            assert(reaches(db, d, forbid, lhs, d, 1));
            assert(redundant_clause(db, k, j));
        }
    }
}

impl Product {
    /// Removes one symbol from clause `j`.
    pub fn remove_symbol(&mut self, j: usize, s: Sym)
        requires
            old(self).wf(),
            j < old(self)@.len(),
        ensures
            final(self).wf(),
            final(self)@ == old(self)@.update(j as int, old(self)@[j as int].remove(s)),
    {
        let mut c = Sum::new();
        self.clauses.set_and_swap(j, &mut c);
        assert(c.wf());
        c.remove(s);
        let ghost cv = c;
        self.clauses.set_and_swap(j, &mut c);
        proof {
            assert(self.clauses@ =~= old(self).clauses@.update(j as int, cv));
            assert(crate::logic::sets_of(self.clauses@) =~= crate::logic::sets_of(old(self).clauses@).update(j as int, cv@));
        }
    }

    /// Removes clause `j`.
    pub fn remove_clause(&mut self, j: usize)
        requires
            old(self).wf(),
            j < old(self)@.len(),
        ensures
            final(self).wf(),
            final(self)@ == old(self)@.remove(j as int),
    {
        self.clauses.remove(j);
        proof {
            assert(self@ =~= old(self)@.remove(j as int));
        }
    }
}

/// Changing one formula to one no larger keeps the database shrunk from `orig`.
proof fn lemma_after_change(orig: Db, a: Db, b: Db, k: Sym, p: Seq<Set<Sym>>)
    requires
        shrunk(orig, a),
        a.contains_key(k),
        b == a.insert(k, p),
        p.len() <= a[k].len(),
        symbol_count(p) <= symbol_count(a[k]),
    ensures
        shrunk(orig, b),
{
    assert(b.dom() =~= a.dom());
}


impl Products {
    /// The number of symbols over all clauses of all formulas.
    pub fn len(&self) -> (r: usize)
        requires
            self.wf(),
            total_symbols(self.entries@) <= usize::MAX,
        ensures
            r == total_symbols(self.entries@),
    {
        let mut total: usize = 0;
        let mut e: usize = 0;
        while e < self.entries.len()
            invariant
                e <= self.entries.len(),
                self.wf(),
                total_symbols(self.entries@) <= usize::MAX,
                total == total_symbols(self.entries@.take(e as int)),
            decreases self.entries.len() - e,
        {
            proof {
                lemma_total_prefix(self.entries@, e as int + 1);
            }
            let p = &self.entries[e].1;
            let mut j: usize = 0;
            let ghost base = total;
            while j < p.clauses.len()
                invariant
                    j <= p.clauses.len(),
                    e < self.entries.len(),
                    p == &self.entries@[e as int].1,
                    p.wf(),
                    total_symbols(self.entries@.take(e as int + 1)) <= usize::MAX,
                    total_symbols(self.entries@.take(e as int + 1)) == base + symbol_count(p@),
                    total == base + symbol_count(p@.take(j as int)),
                decreases p.clauses.len() - j,
            {
                assert(p.clauses@[j as int].wf());
                proof {
                    lemma_count_prefix(p@, j as int + 1);
                }
                total = total + p.clauses[j].len();
                j = j + 1;
            }
            proof {
                assert(p@.take(p@.len() as int) =~= p@);
            }
            e = e + 1;
        }
        assert(self.entries@.take(self.entries@.len() as int) =~= self.entries@);
        total
    }

    /// Every formula's clauses are in lexicographic order.
    pub open spec fn ordered(&self) -> bool {
        forall|m: int| 0 <= m < self.entries@.len() ==> ordered_clauses(#[trigger] self.entries@[m].1.clauses@)
    }

    /// Puts the clauses of each formula in lexicographic order; a formula already in
    /// order is left as it is.
    fn arrange(&mut self)
        requires
            old(self).wf(),
            no_duplicate_clause(old(self)@),
        ensures
            final(self).wf(),
            final(self).ordered(),
            rearranged(old(self)@, final(self)@),
            no_duplicate_clause(final(self)@),
            old(self).ordered() ==> final(self).entries@ == old(self).entries@,
    {
        let ghost start = self.entries@;
        proof {
            lemma_to_map(start);
        }
        let mut e: usize = 0;
        while e < self.entries.len()
            invariant
                e <= self.entries@.len(),
                self.entries@.len() == start.len(),
                unique_keys(start),
                forall|m: int| 0 <= m < start.len() ==> (#[trigger] start[m]).1.wf(),
                forall|k: Sym, i: int, j: int| to_map(start).contains_key(k) && 0 <= i < j < to_map(start)[k].len() ==> #[trigger] to_map(start)[k][i] != #[trigger] to_map(start)[k][j],
                forall|m: int| 0 <= m < start.len() ==> to_map(start)[#[trigger] start[m].0] == start[m].1@ && to_map(start).contains_key(start[m].0),
                forall|m: int| 0 <= m < start.len() ==> (#[trigger] self.entries@[m]).0 == start[m].0 && self.entries@[m].1.wf(),
                forall|m: int| 0 <= m < e ==> ordered_clauses((#[trigger] self.entries@[m]).1.clauses@) && same_clauses(start[m].1@, self.entries@[m].1@)
                    && distinct_clauses(self.entries@[m].1@),
                forall|m: int| e <= m < start.len() ==> #[trigger] self.entries@[m] == start[m],
                (forall|m: int| 0 <= m < start.len() ==> ordered_clauses(#[trigger] start[m].1.clauses@)) ==> self.entries@ == start,
            decreases start.len() - e,
        {
            proof {
                let k = start[e as int].0;
                assert(to_map(start)[k] == start[e as int].1@);
                assert(to_map(start).contains_key(k));
                assert forall|i: int, j: int| 0 <= i < j < start[e as int].1@.len() implies #[trigger] start[e as int].1@[i] != #[trigger] start[e as int].1@[j] by {
                    assert(to_map(start)[k][i] != to_map(start)[k][j]);
                }
            }
            if !is_ordered(&self.entries[e].1) {
                let key = self.entries[e].0;
                let ghost before = self.entries@;
                let p = self.take_at(e);
                let ghost pg = p;
                let c = p.canonical();
                proof {
                    assert(pg == start[e as int].1);
                    lemma_canonical_same(pg, c);
                }
                let ghost cg = c;
                let mut entry = (key, c);
                self.entries.set_and_swap(e, &mut entry);
                proof {
                    assert forall|m: int| 0 <= m < start.len() implies #[trigger] self.entries@[m] == if m == e { (key, cg) } else { before[m] } by {}
                }
            } else {
                proof {
                    let q = start[e as int].1@;
                    assert forall|i: int| 0 <= i < q.len() implies q.contains(#[trigger] q[i]) by {}
                }
            }
            e = e + 1;
        }
        proof {
            lemma_to_map(self.entries@);
            assert(unique_keys(self.entries@)) by {
                assert forall|i: int, j: int| 0 <= i < j < self.entries@.len() implies self.entries@[i].0 != self.entries@[j].0 by {
                    assert(self.entries@[i].0 == start[i].0);
                    assert(self.entries@[j].0 == start[j].0);
                }
            }
            lemma_to_map(self.entries@);
            assert(to_map(start).dom() =~= self@.dom()) by {
                assert forall|k: Sym| to_map(start).contains_key(k) <==> self@.contains_key(k) by {
                    if to_map(start).contains_key(k) {
                        let m = choose|m: int| 0 <= m < start.len() && start[m].0 == k;
                        assert(self.entries@[m].0 == k);
                    }
                    if self@.contains_key(k) {
                        let m = choose|m: int| 0 <= m < self.entries@.len() && self.entries@[m].0 == k;
                        assert(start[m].0 == k);
                    }
                }
            }
            assert forall|k: Sym| to_map(start).contains_key(k) implies #[trigger] same_clauses(to_map(start)[k], self@[k]) by {
                let m = choose|m: int| 0 <= m < start.len() && start[m].0 == k;
                assert(self.entries@[m].0 == k);
                assert(self@[self.entries@[m].0] == self.entries@[m].1@);
            }
            assert forall|k: Sym, i: int, j: int| self@.contains_key(k) && 0 <= i < j < self@[k].len() implies #[trigger] self@[k][i] != #[trigger] self@[k][j] by {
                let m = choose|m: int| 0 <= m < self.entries@.len() && self.entries@[m].0 == k;
                assert(self@[self.entries@[m].0] == self.entries@[m].1@);
                assert(distinct_clauses(self.entries@[m].1@));
            }
            assert forall|m: int| 0 <= m < self.entries@.len() implies (#[trigger] self.entries@[m]).1.wf() by {}
        }
    }

    /// The entries, in order.
    pub fn iter(&self) -> (r: &Vec<(Sym, Product)>)
        ensures
            r@ == self.entries@,
    {
        &self.entries
    }

    /// The position of a symbol's entry.
    fn index_of(&self, k: Sym) -> (r: Option<usize>)
        requires
            self.wf(),
        ensures
            match r {
                Some(i) => i < self.entries@.len() && self.entries@[i as int].0 == k,
                None => !self@.contains_key(k),
            },
    {
        proof {
            lemma_to_map(self.entries@);
        }
        let mut i: usize = 0;
        while i < self.entries.len()
            invariant
                i <= self.entries.len(),
                forall|m: int| 0 <= m < i ==> self.entries@[m].0 != k,
            decreases self.entries.len() - i,
        {
            if self.entries[i].0 == k {
                return Some(i);
            }
            i = i + 1;
        }
        None
    }

    /// Replaces the formula at position `i`, working on it in place.
    fn take_at(&mut self, i: usize) -> (r: Product)
        requires
            old(self).wf(),
            i < old(self).entries@.len(),
        ensures
            r == old(self).entries@[i as int].1,
            final(self).entries@.len() == old(self).entries@.len(),
            forall|m: int| 0 <= m < old(self).entries@.len() && m != i ==> final(self).entries@[m] == old(self).entries@[m],
    {
        let mut e = (self.entries[i].0, Product { clauses: Vec::new() });
        self.entries.set_and_swap(i, &mut e);
        e.1
    }

    /// Finds a symbol that some clause does not need.
    pub fn find_redundant(&self) -> (r: Option<(Sym, usize, Sym)>)
        requires
            self.wf(),
        ensures
            match r {
                Some((k, j, s)) => redundant_symbol(self@, k, j as int, s),
                None => forall|k: Sym, j: int, s: Sym| !#[trigger] redundant_symbol(self@, k, j, s),
            },
    {
        proof {
            lemma_to_map(self.entries@);
        }
        let mut e: usize = 0;
        while e < self.entries.len()
            invariant
                e <= self.entries.len(),
                self.wf(),
                forall|k: Sym| self@.contains_key(k) <==> exists|m: int| 0 <= m < self.entries@.len() && self.entries@[m].0 == k,
                forall|m: int| 0 <= m < self.entries@.len() ==> self@[#[trigger] self.entries@[m].0] == self.entries@[m].1@,
                forall|m: int, j: int, s: Sym| 0 <= m < e ==> !#[trigger] redundant_symbol(self@, self.entries@[m].0, j, s),
            decreases self.entries.len() - e,
        {
            let k = self.entries[e].0;
            let p = &self.entries[e].1;
            assert(p.wf());
            let mut j: usize = 0;
            while j < p.clauses.len()
                invariant
                    e < self.entries.len(),
                    j <= p.clauses.len(),
                    self.wf(),
                    k == self.entries@[e as int].0,
                    p == &self.entries@[e as int].1,
                    p.wf(),
                    self@.contains_key(k),
                    self@[k] == p@,
                    forall|jj: int, s: Sym| 0 <= jj < j ==> !#[trigger] redundant_symbol(self@, k, jj, s),
                decreases p.clauses.len() - j,
            {
                let clause = &p.clauses[j];
                assert(clause.wf());
                let mut q: usize = 0;
                while q < clause.inner.len()
                    invariant
                        j < p.clauses.len(),
                        q <= clause.inner.len(),
                        self.wf(),
                        clause == &p.clauses@[j as int],
                        clause.wf(),
                        self@.contains_key(k),
                        self@[k] == p@,
                        forall|qq: int| 0 <= qq < q ==> !#[trigger] redundant_symbol(self@, k, j as int, clause.inner@[qq]),
                    decreases clause.inner.len() - q,
                {
                    let s = clause.inner[q];
                    let one = Sum::singleton(s);
                    let rest = clause.without(s);
                    if self.implies(&one, &rest, None) {
                        assert(clause@.contains(s));
                        return Some((k, j, s));
                    }
                    q = q + 1;
                }
                proof {
                    assert forall|s: Sym| !#[trigger] redundant_symbol(self@, k, j as int, s) by {
                        if clause@.contains(s) {
                            let qq = choose|qq: int| 0 <= qq < clause.inner@.len() && clause.inner@[qq] == s;
                            assert(!redundant_symbol(self@, k, j as int, clause.inner@[qq]));
                        }
                    }
                }
                j = j + 1;
            }
            e = e + 1;
        }
        proof {
            assert forall|k: Sym, j: int, s: Sym| !#[trigger] redundant_symbol(self@, k, j, s) by {
                if self@.contains_key(k) {
                    let m = choose|m: int| 0 <= m < self.entries@.len() && self.entries@[m].0 == k;
                    assert(!redundant_symbol(self@, self.entries@[m].0, j, s));
                }
            }
        }
        None
    }

    /// Finds a clause that its formula does not need.
    pub fn find_thingy(&self) -> (r: Option<(Sym, usize)>)
        requires
            self.wf(),
        ensures
            match r {
                Some((k, j)) => redundant_clause(self@, k, j as int),
                None => forall|k: Sym, j: int| !#[trigger] redundant_clause(self@, k, j),
            },
    {
        proof {
            lemma_to_map(self.entries@);
        }
        let mut e: usize = 0;
        while e < self.entries.len()
            invariant
                e <= self.entries.len(),
                self.wf(),
                forall|k: Sym| self@.contains_key(k) <==> exists|m: int| 0 <= m < self.entries@.len() && self.entries@[m].0 == k,
                forall|m: int| 0 <= m < self.entries@.len() ==> self@[#[trigger] self.entries@[m].0] == self.entries@[m].1@,
                forall|m: int, j: int| 0 <= m < e ==> !#[trigger] redundant_clause(self@, self.entries@[m].0, j),
            decreases self.entries.len() - e,
        {
            let k = self.entries[e].0;
            let p = &self.entries[e].1;
            assert(p.wf());
            let one = Sum::singleton(k);
            let mut j: usize = 0;
            while j < p.clauses.len()
                invariant
                    e < self.entries.len(),
                    j <= p.clauses.len(),
                    self.wf(),
                    k == self.entries@[e as int].0,
                    p == &self.entries@[e as int].1,
                    p.wf(),
                    one.wf(),
                    one@ == Set::<Sym>::empty().insert(k),
                    self@.contains_key(k),
                    self@[k] == p@,
                    forall|jj: int| 0 <= jj < j ==> !#[trigger] redundant_clause(self@, k, jj),
                decreases p.clauses.len() - j,
            {
                assert(p.clauses@[j as int].wf());
                if self.implies(&one, &p.clauses[j], Some((k, j))) {
                    return Some((k, j));
                }
                j = j + 1;
            }
            e = e + 1;
        }
        proof {
            assert forall|k: Sym, j: int| !#[trigger] redundant_clause(self@, k, j) by {
                if self@.contains_key(k) {
                    let m = choose|m: int| 0 <= m < self.entries@.len() && self.entries@[m].0 == k;
                    assert(!redundant_clause(self@, self.entries@[m].0, j));
                }
            }
        }
        None
    }

    /// The implication check with no clause excluded.
    pub fn implies_test(&self, lhs: &Sum, rhs: &Sum) -> (r: bool)
        requires
            self.wf(),
            lhs.wf(),
            rhs.wf(),
        ensures
            r == implied(self@, lhs@, rhs@, None),
    {
        self.implies(lhs, rhs, None)
    }

    /// Removes redundant symbols and redundant clauses, one at a time, until none is
    /// left, then puts each formula's clauses in lexicographic order.
    pub fn minimize(&mut self)
        requires
            old(self).wf(),
        ensures
            final(self).wf(),
            minimal(final(self)@),
            no_duplicate_clause(final(self)@),
            shrunk(old(self)@, final(self)@),
            no_empty_clause(old(self)@) ==> no_empty_clause(final(self)@),
            final(self).ordered(),
            minimal(old(self)@) && old(self).ordered() ==> final(self)@ == old(self)@,
            forall|n: nat| db_below(old(self)@, n) ==> db_below(final(self)@, n),
            forall|sigma: Set<Sym>| model(old(self)@, sigma) == model(final(self)@, sigma),
            derived(old(self)@, final(self)@),
    {
        let ghost orig = self@;
        let ghost orig_e = self.entries@;
        proof {
            assert forall|k: Sym, i: int| orig.contains_key(k) && 0 <= i < orig[k].len() implies #[trigger] within(orig[k], orig[k], i) by {
                assert(orig[k][i].subset_of(orig[k][i]));
            }
        }
        loop
            invariant
                self.wf(),
                shrunk(orig, self@),
                no_empty_clause(orig) ==> no_empty_clause(self@),
                minimal(orig) ==> self@ == orig,
                minimal(orig) ==> self.entries@ == orig_e,
                orig == to_map(orig_e),
                forall|n: nat| db_below(orig, n) ==> db_below(self@, n),
                forall|sigma: Set<Sym>| model(orig, sigma) == model(self@, sigma),
                derived(orig, self@),
            ensures
                self.wf(),
                minimal(self@),
            decreases weight(self.entries@),
        {
            match self.find_redundant() {
                Some((k, j, s)) => {
                    let i = self.index_of(k).unwrap();
                    let ghost before = self.entries@;
                    proof {
                        lemma_to_map(before);
                        assert(self@[before[i as int].0] == before[i as int].1@);
                    }
                    let mut p = self.take_at(i);
                    assert(p.wf()) by {
                        assert(before[i as int].1.wf());
                    }
                    let ghost pv = p@;
                    p.remove_symbol(j, s);
                    let ghost pn = p;
                    let mut e = (k, p);
                    self.entries.set_and_swap(i, &mut e);
                    proof {
                        assert(self.entries@ =~= before.update(i as int, (k, pn)));
                        lemma_map_update(before, i as int, pn);
                        lemma_weight_update(before, i as int, (k, pn));
                        lemma_count_update(pv, j as int, pv[j as int].remove(s));
                        lemma_sorted_len(before[i as int].1.clauses@[j as int].inner@);
                        assert(pv[j as int].finite());
                        assert(pv[j as int].remove(s).len() == pv[j as int].len() - 1);
                        assert forall|m: int| 0 <= m < self.entries@.len() implies (#[trigger] self.entries@[m]).1.wf() by {
                            if m != i {
                                assert(self.entries@[m] == before[m]);
                            }
                        }
                        lemma_after_change(orig, to_map(before), self@, k, pn@);
                        assert forall|jj: int| 0 <= jj < pn@.len() implies #[trigger] within(pn@, pv, jj) by {
                            assert(pn@[jj].subset_of(pv[jj]));
                        }
                        lemma_derived_step(orig, to_map(before), self@, k, pn@);
                        assert forall|sigma: Set<Sym>| model(orig, sigma) == model(self@, sigma) by {
                            lemma_symbol_removal_sound(to_map(before), k, j as int, s, sigma);
                            assert(self@ == to_map(before).insert(k, to_map(before)[k].update(j as int, to_map(before)[k][j as int].remove(s))));
                        }
                        assert forall|n: nat| db_below(orig, n) implies db_below(self@, n) by {
                            assert forall|kk: Sym, jj: int, x: Sym| self@.contains_key(kk) && 0 <= jj < self@[kk].len() && #[trigger] self@[kk][jj].contains(x) implies x < n by {
                                if kk == k && jj == j {
                                    assert(to_map(before)[k][jj].contains(x));
                                }
                            }
                        }
                        if no_empty_clause(orig) {
                            let db0 = to_map(before);
                            let rest = pv[j as int].remove(s);
                            if rest == Set::<Sym>::empty() {
                                let (n, d) = choose|n: nat, d: Set<Sym>| #[trigger] reaches(db0, rest, None, Set::empty().insert(s), d, n) && d.subset_of(rest);
                                assert(d =~= Set::<Sym>::empty());
                                assert(Set::<Sym>::empty().insert(s).contains(s));
                                lemma_empty_needs_empty(db0, rest, None, Set::empty().insert(s), n);
                            }
                            assert forall|kk: Sym, jj: int| self@.contains_key(kk) && 0 <= jj < self@[kk].len() implies (#[trigger] self@[kk][jj]) != Set::<Sym>::empty() by {
                                if kk == k && jj != j {
                                    assert(self@[kk][jj] == pv[jj]);
                                }
                            }
                        }
                    }
                },
                None => {
                    match self.find_thingy() {
                        Some((k, j)) => {
                            let i = self.index_of(k).unwrap();
                            let ghost before = self.entries@;
                            proof {
                                lemma_to_map(before);
                                assert(self@[before[i as int].0] == before[i as int].1@);
                            }
                            let mut p = self.take_at(i);
                            assert(p.wf()) by {
                                assert(before[i as int].1.wf());
                            }
                            let ghost pv = p@;
                            assert(p.clauses.len() == p.clauses@.len());
                            p.remove_clause(j);
                            let ghost pn = p;
                            let mut e = (k, p);
                            self.entries.set_and_swap(i, &mut e);
                            proof {
                                assert(self.entries@ =~= before.update(i as int, (k, pn)));
                                lemma_map_update(before, i as int, pn);
                                lemma_weight_update(before, i as int, (k, pn));
                                lemma_count_remove(pv, j as int);
                                assert forall|m: int| 0 <= m < self.entries@.len() implies (#[trigger] self.entries@[m]).1.wf() by {
                                    if m != i {
                                        assert(self.entries@[m] == before[m]);
                                    }
                                }
                                lemma_after_change(orig, to_map(before), self@, k, pn@);
                                assert forall|jj: int| 0 <= jj < pn@.len() implies #[trigger] within(pn@, pv, jj) by {
                                    if jj < j {
                                        assert(pn@[jj].subset_of(pv[jj]));
                                    } else {
                                        assert(pn@[jj].subset_of(pv[jj + 1]));
                                    }
                                }
                                lemma_derived_step(orig, to_map(before), self@, k, pn@);
                                assert forall|sigma: Set<Sym>| model(orig, sigma) == model(self@, sigma) by {
                                    lemma_clause_removal_sound(to_map(before), k, j as int, sigma);
                                    assert(self@ == to_map(before).insert(k, to_map(before)[k].remove(j as int)));
                                }
                                assert forall|n: nat| db_below(orig, n) implies db_below(self@, n) by {
                                    assert forall|kk: Sym, jj: int, x: Sym| self@.contains_key(kk) && 0 <= jj < self@[kk].len() && #[trigger] self@[kk][jj].contains(x) implies x < n by {
                                        if kk == k {
                                            if jj < j {
                                                assert(self@[kk][jj] == pv[jj]);
                                            } else {
                                                assert(self@[kk][jj] == pv[jj + 1]);
                                            }
                                        }
                                    }
                                }
                                if no_empty_clause(orig) {
                                    assert forall|kk: Sym, jj: int| self@.contains_key(kk) && 0 <= jj < self@[kk].len() implies (#[trigger] self@[kk][jj]) != Set::<Sym>::empty() by {
                                        if kk == k {
                                            if jj < j {
                                                assert(self@[kk][jj] == pv[jj]);
                                            } else {
                                                assert(self@[kk][jj] == pv[jj + 1]);
                                            }
                                        }
                                    }
                                }
                            }
                        },
                        None => {
                            break;
                        },
                    }
                },
            }
        }
        proof {
            lemma_to_map(self.entries@);
            assert forall|k: Sym| #[trigger] self@.contains_key(k) implies self@[k].len() <= usize::MAX by {
                let m = choose|m: int| 0 <= m < self.entries@.len() && self.entries@[m].0 == k;
                assert(self@[self.entries@[m].0] == self.entries@[m].1@);
                assert(self.entries@[m].1.clauses.len() == self.entries@[m].1.clauses@.len());
            }
            lemma_minimal_no_duplicates(self@);
        }
        let ghost fixed = self@;
        let ghost fixed_e = self.entries@;
        self.arrange();
        proof {
            lemma_rearranged(orig, fixed, self@);
            if minimal(orig) && (forall|m: int| 0 <= m < orig_e.len() ==> ordered_clauses(#[trigger] orig_e[m].1.clauses@)) {
                assert(fixed_e == orig_e);
                assert(self.entries@ == orig_e);
            }
        }
    }
}

/// The number of symbols over all clauses of all entries.
pub open spec fn total_symbols(es: Seq<(Sym, Product)>) -> nat
    decreases es.len(),
{
    if es.len() == 0 {
        0
    } else {
        total_symbols(es.drop_last()) + symbol_count(es.last().1@)
    }
}

/// The symbol total of a prefix grows by the symbols of the next entry.
proof fn lemma_total_prefix(es: Seq<(Sym, Product)>, n: int)
    requires
        0 < n <= es.len(),
    ensures
        total_symbols(es.take(n)) == total_symbols(es.take(n - 1)) + symbol_count(es[n - 1].1@),
        total_symbols(es.take(n)) <= total_symbols(es),
    decreases es.len(),
{
    assert(es.take(n).drop_last() =~= es.take(n - 1));
    if n < es.len() {
        lemma_total_prefix(es.drop_last(), n);
        assert(es.drop_last().take(n) =~= es.take(n));
        assert(es.drop_last().take(n - 1) =~= es.take(n - 1));
    } else {
        assert(es.take(n) =~= es);
    }
}

/// The symbol count of a prefix grows by the size of the next clause.
proof fn lemma_count_prefix(p: Seq<Set<Sym>>, n: int)
    requires
        0 < n <= p.len(),
    ensures
        symbol_count(p.take(n)) == symbol_count(p.take(n - 1)) + p[n - 1].len(),
        symbol_count(p.take(n)) <= symbol_count(p),
    decreases p.len(),
{
    assert(p.take(n).drop_last() =~= p.take(n - 1));
    if n < p.len() {
        lemma_count_prefix(p.drop_last(), n);
        assert(p.drop_last().take(n) =~= p.take(n));
        assert(p.drop_last().take(n - 1) =~= p.take(n - 1));
    } else {
        assert(p.take(n) =~= p);
    }
}

} // verus!
