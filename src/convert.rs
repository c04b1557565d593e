use vstd::prelude::*;
use crate::sum::{Sum, Sym};
use crate::logic::{Product, Products, cross, to_map, lemma_to_map, lemma_to_map_from};
use crate::oracle::Db;
use crate::minimize::{derived, model, minimal, shrunk, no_duplicate_clause, db_below};
use crate::restrictions::{Operator, PrerequisiteTree, Qualification, QualificationView};

verus! {

/// The qualifications of a table, as plain values.
pub open spec fn names(items: Seq<Qualification>) -> Seq<QualificationView> {
    items.map_values(|q: Qualification| q@)
}

/// The interned qualifications: symbol `i` stands for the qualification at position `i`.
#[derive(Debug)]
pub struct SymbolTable {
    pub items: Vec<Qualification>,
}

impl View for SymbolTable {
    type V = Seq<QualificationView>;

    open spec fn view(&self) -> Seq<QualificationView> {
        names(self.items@)
    }
}

/// The symbol of a qualification in a table.
pub open spec fn index_in(tbl: Seq<QualificationView>, q: QualificationView) -> int {
    choose|i: int| 0 <= i < tbl.len() && tbl[i] == q
}

/// The number of children of a node; a leaf has none.
pub open spec fn width(t: PrerequisiteTree) -> nat {
    match t {
        PrerequisiteTree::Qualification(_) => 0,
        PrerequisiteTree::Operator(_, cs) => cs@.len(),
    }
}

/// Every qualification in the tree (in its first `n` children) is in the table.
pub open spec fn covers(t: PrerequisiteTree, n: nat, tbl: Seq<QualificationView>) -> bool
    decreases t, n,
{
    match t {
        PrerequisiteTree::Qualification(q) => tbl.contains(q@),
        PrerequisiteTree::Operator(_, cs) => {
            if n == 0 || n > cs@.len() {
                true
            } else {
                covers(t, (n - 1) as nat, tbl) && covers(cs@[n - 1], width(cs@[n - 1]), tbl)
            }
        },
    }
}

/// The formula of a tree (of its first `n` children), symbols taken from the table:
/// a leaf is one clause of one symbol; `All` joins its children's clauses, starting from
/// no clause; `Any` distributes them, starting from one empty clause. `None` when a
/// distribution would have more clauses than a vector can hold.
pub open spec fn formula_of(t: PrerequisiteTree, n: nat, tbl: Seq<QualificationView>) -> Option<Seq<Set<Sym>>>
    decreases t, n,
{
    match t {
        PrerequisiteTree::Qualification(q) => Some(seq![Set::empty().insert(index_in(tbl, q@) as Sym)]),
        PrerequisiteTree::Operator(op, cs) => {
            if n == 0 || n > cs@.len() {
                match op {
                    Operator::All => Some(Seq::empty()),
                    Operator::Any => Some(seq![Set::<Sym>::empty()]),
                }
            } else {
                match (formula_of(t, (n - 1) as nat, tbl), formula_of(cs@[n - 1], width(cs@[n - 1]), tbl)) {
                    (Some(a), Some(b)) => match op {
                        Operator::All => Some(a + b),
                        Operator::Any => if a.len() * b.len() <= usize::MAX {
                            Some(cross(a, b))
                        } else {
                            None
                        },
                    },
                    _ => None,
                }
            }
        },
    }
}

/// The formula of a whole tree.
pub open spec fn tree_formula(t: PrerequisiteTree, tbl: Seq<QualificationView>) -> Option<Seq<Set<Sym>>> {
    formula_of(t, width(t), tbl)
}

/// A table that holds every entry of `a` holds what `a` covers.
pub proof fn lemma_covers_grow(t: PrerequisiteTree, n: nat, a: Seq<QualificationView>, b: Seq<QualificationView>)
    requires
        covers(t, n, a),
        forall|x: QualificationView| a.contains(x) ==> b.contains(x),
    ensures
        covers(t, n, b),
    decreases t, n,
{
    match t {
        PrerequisiteTree::Qualification(q) => {},
        PrerequisiteTree::Operator(_, cs) => {
            if n == 0 || n > cs@.len() {
            } else {
                lemma_covers_grow(t, (n - 1) as nat, a, b);
                lemma_covers_grow(cs@[n - 1], width(cs@[n - 1]), a, b);
            }
        },
    }
}

impl SymbolTable {
    pub open spec fn wf(&self) -> bool {
        self@.no_duplicates()
    }

    pub fn new() -> (r: SymbolTable)
        ensures
            r.wf(),
            r@ == Seq::<QualificationView>::empty(),
    {
        let r = SymbolTable { items: Vec::new() };
        assert(r@ =~= Seq::<QualificationView>::empty());
        r
    }

    pub fn len(&self) -> (r: usize)
        ensures
            r == self@.len(),
    {
        self.items.len()
    }

    /// The symbol of a qualification, if it has one.
    pub fn lookup(&self, q: &Qualification) -> (r: Option<Sym>)
        requires
            self.wf(),
        ensures
            match r {
                Some(i) => i < self@.len() && self@[i as int] == q@ && i == index_in(self@, q@),
                None => !self@.contains(q@),
            },
    {
        let mut i: usize = 0;
        while i < self.items.len()
            invariant
                i <= self.items.len(),
                self.wf(),
                forall|k: int| 0 <= k < i ==> self@[k] != q@,
            decreases self.items.len() - i,
        {
            if self.items[i].same(q) {
                proof {
                    assert(self@[i as int] == q@);
                    let j = index_in(self@, q@);
                    assert(self@[j] == q@);
                    assert(j == i);
                }
                return Some(i);
            }
            i = i + 1;
        }
        None
    }

    /// The symbol of a qualification, made on first sight.
    pub fn intern(&mut self, q: &Qualification) -> (r: Sym)
        requires
            old(self).wf(),
        ensures
            final(self).wf(),
            r < final(self)@.len(),
            final(self)@[r as int] == q@,
            r == index_in(final(self)@, q@),
            old(self)@.contains(q@) ==> final(self)@ == old(self)@,
            !old(self)@.contains(q@) ==> final(self)@ == old(self)@.push(q@),
    {
        match self.lookup(q) {
            Some(i) => i,
            None => {
                let i = self.items.len();
                self.items.push(q.copy());
                proof {
                    assert(self@ =~= old(self)@.push(q@));
                    assert(self@[i as int] == q@);
                    let j = index_in(self@, q@);
                    assert(self@[j] == q@);
                }
                i
            },
        }
    }

    /// The qualification a symbol stands for.
    pub fn resolve(&self, s: Sym) -> (r: &Qualification)
        requires
            s < self@.len(),
        ensures
            r@ == self@[s as int],
    {
        &self.items[s]
    }

    /// Interns every qualification of a tree.
    pub fn intern_tree(&mut self, t: &PrerequisiteTree)
        requires
            old(self).wf(),
        ensures
            final(self).wf(),
            covers(*t, width(*t), final(self)@),
            forall|x: QualificationView| old(self)@.contains(x) ==> final(self)@.contains(x),
        decreases t,
    {
        match t {
            PrerequisiteTree::Qualification(q) => {
                self.intern(q);
                proof {
                    assert(self@.contains(q@)) by {
                        let j = index_in(self@, q@);
                    }
                    assert forall|x: QualificationView| old(self)@.contains(x) implies self@.contains(x) by {
                        if !old(self)@.contains(q@) {
                            let k = choose|k: int| 0 <= k < old(self)@.len() && old(self)@[k] == x;
                            assert(self@[k] == x);
                        }
                    }
                }
            },
            PrerequisiteTree::Operator(_, cs) => {
                let mut i: usize = 0;
                while i < cs.len()
                    invariant
                        i <= cs@.len(),
                        self.wf(),
                        covers(*t, i as nat, self@),
                        forall|x: QualificationView| old(self)@.contains(x) ==> self@.contains(x),
                        *t == PrerequisiteTree::Operator(t->Operator_0, *cs),
                    decreases cs@.len() - i,
                {
                    let ghost before = self@;
                    self.intern_tree(&cs[i]);
                    proof {
                        lemma_covers_grow(*t, i as nat, before, self@);
                    }
                    i = i + 1;
                }
            },
        }
    }
}

impl Qualification {
    /// A copy that is the same qualification.
    pub fn copy(&self) -> (r: Qualification)
        ensures
            r@ == self@,
    {
        match self {
            Qualification::Course(c) => Qualification::Course(
                crate::restrictions::CourseCode { subject: c.subject.clone(), number: c.number.clone() },
            ),
            Qualification::ExamScore(e) => Qualification::ExamScore(
                crate::restrictions::ExamScore { exam: e.exam.clone(), score: e.score },
            ),
        }
    }
}

/// The formula of one qualification: a single clause holding its symbol.
pub fn visit_symbol(symbol: Sym) -> (r: Product)
    ensures
        r.wf(),
        r@ == seq![Set::<Sym>::empty().insert(symbol)],
{
    let r = Product { clauses: vec![Sum::singleton(symbol)] };
    assert(r@ =~= seq![Set::<Sym>::empty().insert(symbol)]);
    r
}

impl PrerequisiteTree {
    /// The formula of the tree over the symbols of `table`.
    pub fn into_product(&self, table: &SymbolTable) -> (r: Option<Product>)
        requires
            table.wf(),
            covers(*self, width(*self), table@),
        ensures
            match r {
                Some(p) => p.wf() && tree_formula(*self, table@) == Some(p@),
                None => tree_formula(*self, table@) is None,
            },
        decreases self, 1nat,
    {
        match self {
            PrerequisiteTree::Qualification(q) => {
                let s = table.lookup(q);
                match s {
                    Some(s) => Some(visit_symbol(s)),
                    None => None,
                }
            },
            PrerequisiteTree::Operator(Operator::All, cs) => visit_all(self, cs, table),
            PrerequisiteTree::Operator(Operator::Any, cs) => visit_any(self, cs, table),
        }
    }
}

/// The conjunction of the children's formulas, from the identity of conjunction.
pub fn visit_all(t: &PrerequisiteTree, iter: &Vec<PrerequisiteTree>, table: &SymbolTable) -> (r: Option<Product>)
    requires
        table.wf(),
        *t == PrerequisiteTree::Operator(Operator::All, *iter),
        covers(*t, width(*t), table@),
    ensures
        match r {
            Some(p) => p.wf() && tree_formula(*t, table@) == Some(p@),
            None => tree_formula(*t, table@) is None,
        },
    decreases t, 0nat,
{
    let mut acc = Product::and_identity();
    let mut i: usize = 0;
    proof {
        lemma_covers_prefix(*t, width(*t), table@);
    }
    while i < iter.len()
        invariant
            i <= iter@.len(),
            table.wf(),
            *t == PrerequisiteTree::Operator(Operator::All, *iter),
            covers(*t, width(*t), table@),
            forall|n: nat| n <= width(*t) ==> covers(*t, n, table@),
            acc.wf(),
            formula_of(*t, i as nat, table@) == Some(acc@),
        decreases iter@.len() - i,
    {
        proof {
            assert(covers(*t, i as nat + 1, table@));
        }
        let child = iter[i].into_product(table);
        match child {
            Some(c) => {
                acc = acc.bitand(c);
            },
            None => {
                proof {
                    lemma_none_stays(*t, i as nat + 1, width(*t), table@);
                }
                return None;
            },
        }
        i = i + 1;
    }
    Some(acc)
}

/// The disjunction of the children's formulas, from the identity of disjunction.
pub fn visit_any(t: &PrerequisiteTree, iter: &Vec<PrerequisiteTree>, table: &SymbolTable) -> (r: Option<Product>)
    requires
        table.wf(),
        *t == PrerequisiteTree::Operator(Operator::Any, *iter),
        covers(*t, width(*t), table@),
    ensures
        match r {
            Some(p) => p.wf() && tree_formula(*t, table@) == Some(p@),
            None => tree_formula(*t, table@) is None,
        },
    decreases t, 0nat,
{
    let mut acc = Product::or_identity();
    let mut i: usize = 0;
    proof {
        lemma_covers_prefix(*t, width(*t), table@);
    }
    while i < iter.len()
        invariant
            i <= iter@.len(),
            table.wf(),
            *t == PrerequisiteTree::Operator(Operator::Any, *iter),
            covers(*t, width(*t), table@),
            forall|n: nat| n <= width(*t) ==> covers(*t, n, table@),
            acc.wf(),
            formula_of(*t, i as nat, table@) == Some(acc@),
        decreases iter@.len() - i,
    {
        proof {
            assert(covers(*t, i as nat + 1, table@));
        }
        let child = iter[i].into_product(table);
        match child {
            Some(c) => {
                let fits = match acc.len().checked_mul(c.len()) {
                    Some(_) => true,
                    None => false,
                };
                if !fits {
                    proof {
                        lemma_none_stays(*t, i as nat + 1, width(*t), table@);
                    }
                    return None;
                }
                acc = acc.bitor(&c);
            },
            None => {
                proof {
                    lemma_none_stays(*t, i as nat + 1, width(*t), table@);
                }
                return None;
            },
        }
        i = i + 1;
    }
    Some(acc)
}

/// What covers a node's children covers each prefix of them.
pub proof fn lemma_covers_prefix(t: PrerequisiteTree, n: nat, tbl: Seq<QualificationView>)
    requires
        covers(t, n, tbl),
        n <= width(t),
    ensures
        forall|m: nat| m <= n ==> covers(t, m, tbl),
    decreases n,
{
    if n > 0 {
        if let PrerequisiteTree::Operator(_, cs) = t {
            lemma_covers_prefix(t, (n - 1) as nat, tbl);
        }
    }
}

/// Once a prefix of a node's children has no formula, no longer prefix has one.
pub proof fn lemma_none_stays(t: PrerequisiteTree, n: nat, m: nat, tbl: Seq<QualificationView>)
    requires
        formula_of(t, n, tbl) is None,
        0 < n <= m <= width(t),
    ensures
        formula_of(t, m, tbl) is None,
    decreases m - n,
{
    if n < m {
        lemma_none_stays(t, n, (m - 1) as nat, tbl);
    }
}


/// Every symbol of every clause is below `n`.
pub open spec fn symbols_below(p: Seq<Set<Sym>>, n: nat) -> bool {
    forall|i: int, x: Sym| 0 <= i < p.len() && #[trigger] p[i].contains(x) ==> x < n
}

/// The formula of a tree uses only symbols of the table.
pub proof fn lemma_formula_below(t: PrerequisiteTree, n: nat, tbl: Seq<QualificationView>)
    requires
        covers(t, n, tbl),
        formula_of(t, n, tbl) is Some,
    ensures
        symbols_below(formula_of(t, n, tbl)->Some_0, tbl.len()),
    decreases t, n,
{
    match t {
        PrerequisiteTree::Qualification(q) => {
            let j = index_in(tbl, q@);
            assert(tbl[j] == q@);
        },
        PrerequisiteTree::Operator(op, cs) => {
            if n == 0 || n > cs@.len() {
            } else {
                let a = formula_of(t, (n - 1) as nat, tbl)->Some_0;
                let b = formula_of(cs@[n - 1], width(cs@[n - 1]), tbl)->Some_0;
                lemma_formula_below(t, (n - 1) as nat, tbl);
                lemma_formula_below(cs@[n - 1], width(cs@[n - 1]), tbl);
                match op {
                    Operator::All => {
                        let f = a + b;
                        assert forall|i: int, x: Sym| 0 <= i < f.len() && #[trigger] f[i].contains(x) implies x < tbl.len() by {
                            if i < a.len() {
                                assert(f[i] == a[i]);
                            } else {
                                assert(f[i] == b[i - a.len()]);
                            }
                        }
                    },
                    Operator::Any => {
                        lemma_cross_below(a, b, tbl.len());
                    },
                }
            }
        },
    }
}

/// Distribution keeps symbols below a bound.
pub proof fn lemma_cross_below(a: Seq<Set<Sym>>, b: Seq<Set<Sym>>, n: nat)
    requires
        symbols_below(a, n),
        symbols_below(b, n),
    ensures
        symbols_below(cross(a, b), n),
    decreases a.len(),
{
    if a.len() > 0 {
        let a0 = a.drop_last();
        assert(symbols_below(a0, n)) by {
            assert forall|i: int, x: Sym| 0 <= i < a0.len() && #[trigger] a0[i].contains(x) implies x < n by {
                assert(a0[i] == a[i]);
            }
        }
        lemma_cross_below(a0, b, n);
        let l = cross(a0, b);
        let r = crate::logic::join_each(a.last(), b);
        let f = l + r;
        assert(f == cross(a, b));
        assert forall|i: int, x: Sym| 0 <= i < f.len() && #[trigger] f[i].contains(x) implies x < n by {
            if i < l.len() {
                assert(f[i] == l[i]);
            } else {
                assert(f[i] == r[i - l.len()]);
                assert(r[i - l.len()] == a.last().union(b[i - l.len()]));
                assert(a[a.len() - 1] == a.last());
            }
        }
    }
}

/// `t` is the leaf of the qualification `q`.
pub open spec fn leaf_of(t: PrerequisiteTree, q: QualificationView) -> bool {
    match t {
        PrerequisiteTree::Qualification(x) => x@ == q,
        _ => false,
    }
}

/// `t` is the tree of a clause with symbols `c`: one symbol as its leaf, more under
/// `Any`, in order.
pub open spec fn clause_tree(t: PrerequisiteTree, c: Seq<Sym>, tbl: Seq<QualificationView>) -> bool {
    if c.len() == 1 {
        leaf_of(t, tbl[c[0] as int])
    } else {
        match t {
            PrerequisiteTree::Operator(Operator::Any, cs) => cs@.len() == c.len() && forall|i: int|
                0 <= i < c.len() ==> leaf_of(#[trigger] cs@[i], tbl[c[i] as int]),
            _ => false,
        }
    }
}

/// `t` is the tree of a formula with clauses `p`: one clause as its clause's tree,
/// more under `All`, in order.
pub open spec fn product_tree(t: PrerequisiteTree, p: Seq<Sum>, tbl: Seq<QualificationView>) -> bool {
    if p.len() == 1 {
        clause_tree(t, p[0].inner@, tbl)
    } else {
        match t {
            PrerequisiteTree::Operator(Operator::All, cs) => cs@.len() == p.len() && forall|i: int|
                0 <= i < p.len() ==> clause_tree(#[trigger] cs@[i], p[i].inner@, tbl),
            _ => false,
        }
    }
}

/// Every symbol of a clause is in the table.
pub open spec fn sum_in_table(c: Sum, tbl: Seq<QualificationView>) -> bool {
    forall|k: int| 0 <= k < c.inner@.len() ==> (#[trigger] c.inner@[k]) < tbl.len()
}

/// The tree of a clause; `None` for the empty clause, which nothing meets.
pub fn sum_into_tree(sum: Sum, table: &SymbolTable) -> (r: Option<PrerequisiteTree>)
    requires
        sum_in_table(sum, table@),
    ensures
        match r {
            None => sum.inner@.len() == 0,
            Some(t) => sum.inner@.len() > 0 && clause_tree(t, sum.inner@, table@),
        },
{
    let mut symbols: Vec<PrerequisiteTree> = Vec::new();
    let mut k: usize = 0;
    while k < sum.inner.len()
        invariant
            k <= sum.inner@.len(),
            sum_in_table(sum, table@),
            symbols@.len() == k,
            forall|i: int| 0 <= i < k ==> leaf_of(#[trigger] symbols@[i], table@[sum.inner@[i] as int]),
        decreases sum.inner@.len() - k,
    {
        let q = table.resolve(sum.inner[k]).copy();
        symbols.push(PrerequisiteTree::symbol(q));
        k = k + 1;
    }
    if symbols.len() == 0 {
        None
    } else if symbols.len() == 1 {
        let t = symbols.pop().unwrap();
        assert(leaf_of(t, table@[sum.inner@[0] as int]));
        Some(t)
    } else {
        Some(PrerequisiteTree::any(symbols))
    }
}

/// Why a requirement has no minimized tree.
#[derive(Debug, Clone, Copy, PartialEq, Eq)]
pub enum MinimizeError {
    /// A clause of the formula is empty: nothing can meet the requirement.
    Unsatisfiable,
    /// Distributing the tree's alternatives would give more clauses than a vector
    /// holds.
    TooLarge,
}

/// The tree of a formula: `Ok(None)` for no clause (no requirement),
/// `Err(Unsatisfiable)` when a clause is empty, else the tree of its clauses.
pub fn product_into_tree(product: &Product, table: &SymbolTable) -> (r: Result<Option<PrerequisiteTree>, MinimizeError>)
    requires
        forall|i: int| 0 <= i < product.clauses@.len() ==> sum_in_table(#[trigger] product.clauses@[i], table@),
    ensures
        outcome(r, *product, table@),
{
    let clauses = product.iter();
    let mut sums: Vec<PrerequisiteTree> = Vec::new();
    let mut k: usize = 0;
    while k < clauses.len()
        invariant
            k <= clauses@.len(),
            clauses@ == product.clauses@,
            forall|i: int| 0 <= i < clauses@.len() ==> sum_in_table(#[trigger] clauses@[i], table@),
            sums@.len() == k,
            forall|i: int| 0 <= i < k ==> (#[trigger] clauses@[i]).inner@.len() > 0,
            forall|i: int| 0 <= i < k ==> clause_tree(#[trigger] sums@[i], clauses@[i].inner@, table@),
        decreases clauses@.len() - k,
    {
        let copy = clauses[k].duplicate();
        let ghost old_sums = sums@;
        match sum_into_tree(copy, table) {
            Some(t) => {
                sums.push(t);
                proof {
                    assert forall|i: int| 0 <= i < k + 1 implies clause_tree(#[trigger] sums@[i], clauses@[i].inner@, table@) by {
                        if i < k {
                            assert(sums@[i] == old_sums[i]);
                        }
                    }
                }
            },
            None => {
                assert(product.clauses@[k as int].inner@.len() == 0);
                return Err(MinimizeError::Unsatisfiable);
            },
        }
        k = k + 1;
    }
    if sums.len() == 0 {
        Ok(None)
    } else if sums.len() == 1 {
        let t = sums.pop().unwrap();
        Ok(Some(t))
    } else {
        Ok(Some(PrerequisiteTree::all(sums)))
    }
}

/// The database of a list of requirements: for each name, the formula of its tree; of
/// two trees for one name the later one counts. A tree too large to expand is left
/// out.
pub open spec fn built(trees: Seq<(Qualification, PrerequisiteTree)>, tbl: Seq<QualificationView>) -> Db
    decreases trees.len(),
{
    if trees.len() == 0 {
        Map::empty()
    } else if tree_formula(trees.last().1, tbl) is Some {
        built(trees.drop_last(), tbl).insert(
            index_in(tbl, trees.last().0@) as Sym,
            tree_formula(trees.last().1, tbl)->Some_0,
        )
    } else {
        built(trees.drop_last(), tbl)
    }
}

/// The names whose trees are too large to expand, in order.
pub open spec fn too_large(trees: Seq<(Qualification, PrerequisiteTree)>, tbl: Seq<QualificationView>) -> Seq<QualificationView>
    decreases trees.len(),
{
    if trees.len() == 0 {
        Seq::empty()
    } else if tree_formula(trees.last().1, tbl) is Some {
        too_large(trees.drop_last(), tbl)
    } else {
        too_large(trees.drop_last(), tbl).push(trees.last().0@)
    }
}

/// What one output entry says of a minimized formula: `Err(Unsatisfiable)` exactly
/// when a clause is empty, `Ok(None)` (no requirement) exactly when no clause is
/// left, else the formula's tree.
pub open spec fn outcome(o: Result<Option<PrerequisiteTree>, MinimizeError>, p: Product, tbl: Seq<QualificationView>) -> bool {
    let empty_clause = exists|i: int| 0 <= i < p.clauses@.len() && (#[trigger] p.clauses@[i]).inner@.len() == 0;
    match o {
        Err(MinimizeError::Unsatisfiable) => empty_clause,
        Err(MinimizeError::TooLarge) => false,
        Ok(None) => !empty_clause && p.clauses@.len() == 0,
        Ok(Some(t)) => !empty_clause && p.clauses@.len() > 0 && product_tree(t, p.clauses@, tbl),
    }
}

/// Output entry `o` names the `m`th entry of `db` and gives its formula.
pub open spec fn entry_ok(o: (Qualification, Result<Option<PrerequisiteTree>, MinimizeError>), db: Products, tbl: Seq<QualificationView>, m: int) -> bool {
    &&& o.0@ == tbl[db.entries@[m].0 as int]
    &&& outcome(o.1, db.entries@[m].1, tbl)
}

/// The output lists, entry by entry, a database that is minimal, no larger than the
/// one built from the trees, within it, met by exactly the same assignments, and with
/// each formula's clauses in lexicographic order; then, with
/// `Err(TooLarge)`, the names whose trees were too large to expand.
pub open spec fn result_of(
    trees: Seq<(Qualification, PrerequisiteTree)>,
    tbl: Seq<QualificationView>,
    db: Products,
    out: Seq<(Qualification, Result<Option<PrerequisiteTree>, MinimizeError>)>,
) -> bool {
    &&& db.wf()
    &&& db.ordered()
    &&& minimal(db@)
    &&& no_duplicate_clause(db@)
    &&& shrunk(built(trees, tbl), db@)
    &&& derived(built(trees, tbl), db@)
    &&& forall|sigma: Set<Sym>| model(built(trees, tbl), sigma) == model(db@, sigma)
    &&& out.len() == db.entries@.len() + too_large(trees, tbl).len()
    &&& forall|i: int| 0 <= i < db.entries@.len() ==> entry_ok(#[trigger] out[i], db, tbl, i)
    &&& forall|i: int| db.entries@.len() <= i < out.len() ==> (#[trigger] out[i]).0@ == too_large(trees, tbl)[i - db.entries@.len()]
        && out[i].1 == Err::<Option<PrerequisiteTree>, MinimizeError>(MinimizeError::TooLarge)
}

/// Minimizes the requirement of every name: builds each tree's formula over `table`,
/// removes redundant symbols and clauses until none is left, and gives back, per name,
/// the tree of its minimized formula, clauses in lexicographic order: `Ok(None)` when
/// no requirement is left, `Err(Unsatisfiable)` for a formula with an empty clause.
/// A name whose tree is too large to expand comes last with `Err(TooLarge)`; the others
/// are minimized without it.
pub fn minimize(trees: &Vec<(Qualification, PrerequisiteTree)>, table: &mut SymbolTable) -> (r: Vec<(Qualification, Result<Option<PrerequisiteTree>, MinimizeError>)>)
    requires
        old(table).wf(),
    ensures
        final(table).wf(),
        forall|m: int| 0 <= m < trees@.len() ==> final(table)@.contains((#[trigger] trees@[m]).0@) && covers(trees@[m].1, width(trees@[m].1), final(table)@),
        exists|db: Products| #[trigger] result_of(trees@, final(table)@, db, r@),
{
    let mut i: usize = 0;
    while i < trees.len()
        invariant
            i <= trees@.len(),
            table.wf(),
            forall|m: int| 0 <= m < i ==> table@.contains((#[trigger] trees@[m]).0@) && covers(trees@[m].1, width(trees@[m].1), table@),
        decreases trees@.len() - i,
    {
        let ghost before = table@;
        table.intern(&trees[i].0);
        let ghost middle = table@;
        table.intern_tree(&trees[i].1);
        proof {
            assert forall|x: QualificationView| before.contains(x) implies middle.contains(x) by {
                let k = choose|k: int| 0 <= k < before.len() && before[k] == x;
                assert(middle[k] == x);
            }
            assert forall|m: int| 0 <= m < i + 1 implies table@.contains((#[trigger] trees@[m]).0@) && covers(trees@[m].1, width(trees@[m].1), table@) by {
                if m < i {
                    assert(middle.contains(trees@[m].0@)) by {
                        let k = choose|k: int| 0 <= k < before.len() && before[k] == trees@[m].0@;
                        assert(middle[k] == trees@[m].0@);
                    }
                    lemma_covers_grow(trees@[m].1, width(trees@[m].1), before, middle);
                    lemma_covers_grow(trees@[m].1, width(trees@[m].1), middle, table@);
                } else {
                    let j = index_in(middle, trees@[m].0@);
                    assert(middle.contains(trees@[m].0@));
                }
            }
        }
        i = i + 1;
    }
    build_and_minimize(trees, table)
}

/// The work of `minimize` once every qualification of the trees is in `table`.
fn build_and_minimize(trees: &Vec<(Qualification, PrerequisiteTree)>, table: &SymbolTable) -> (r: Vec<(Qualification, Result<Option<PrerequisiteTree>, MinimizeError>)>)
    requires
        table.wf(),
        forall|m: int| 0 <= m < trees@.len() ==> table@.contains((#[trigger] trees@[m]).0@) && covers(trees@[m].1, width(trees@[m].1), table@),
    ensures
        exists|db: Products| #[trigger] result_of(trees@, table@, db, r@),
{
    let mut entries: Vec<(Sym, Product)> = Vec::new();
    let mut large: Vec<Qualification> = Vec::new();
    let mut i: usize = 0;
    while i < trees.len()
        invariant
            i <= trees@.len(),
            table.wf(),
            forall|m: int| 0 <= m < trees@.len() ==> table@.contains((#[trigger] trees@[m]).0@) && covers(trees@[m].1, width(trees@[m].1), table@),
            to_map(entries@) == built(trees@.take(i as int), table@),
            large@.len() == too_large(trees@.take(i as int), table@).len(),
            forall|m: int| 0 <= m < large@.len() ==> (#[trigger] large@[m])@ == too_large(trees@.take(i as int), table@)[m],
            forall|m: int| 0 <= m < entries@.len() ==> (#[trigger] entries@[m]).1.wf() && symbols_below(entries@[m].1@, table@.len()) && entries@[m].0 < table@.len(),
        decreases trees@.len() - i,
    {
        proof {
            let t1 = trees@.take(i as int + 1);
            assert(t1.drop_last() =~= trees@.take(i as int));
            assert(t1.last() == trees@[i as int]);
        }
        match trees[i].1.into_product(table) {
            Some(p) => {
                let key = match table.lookup(&trees[i].0) {
                    Some(k) => k,
                    None => {
                        proof {
                            assert(table@.contains(trees@[i as int].0@));
                        }
                        0
                    },
                };
                proof {
                    lemma_formula_below(trees@[i as int].1, width(trees@[i as int].1), table@);
                }
                let ghost old_entries = entries@;
                entries.push((key, p));
                proof {
                    assert(entries@.drop_last() =~= old_entries);
                    assert forall|m: int| 0 <= m < entries@.len() implies (#[trigger] entries@[m]).1.wf() && symbols_below(entries@[m].1@, table@.len()) && entries@[m].0 < table@.len() by {
                        if m < old_entries.len() {
                            assert(entries@[m] == old_entries[m]);
                        }
                    }
                }
            },
            None => {
                let ghost old_large = large@;
                large.push(trees[i].0.copy());
                proof {
                    assert forall|m: int| 0 <= m < large@.len() implies (#[trigger] large@[m])@ == too_large(trees@.take(i as int + 1), table@)[m] by {
                        if m < old_large.len() {
                            assert(large@[m] == old_large[m]);
                        }
                    }
                }
            },
        }
        i = i + 1;
    }
    proof {
        assert(trees@.take(trees@.len() as int) =~= trees@);
    }
    let mut db = Products::from_entries(entries);
    proof {
        lemma_to_map(db.entries@);
        assert(db_below(db@, table@.len() as nat)) by {
            assert forall|k: Sym, j: int, x: Sym| db@.contains_key(k) && 0 <= j < db@[k].len() && #[trigger] db@[k][j].contains(x) implies x < table@.len() by {
                lemma_to_map_from(entries@, k);
                let m = choose|m: int| 0 <= m < entries@.len() && entries@[m].0 == k && to_map(entries@)[k] == entries@[m].1@;
                assert(symbols_below(entries@[m].1@, table@.len()));
            }
        }
    }
    let ghost db0 = db@;
    proof {
        assert forall|k: Sym| db0.contains_key(k) implies k < table@.len() by {
            lemma_to_map_from(entries@, k);
            let m = choose|m: int| 0 <= m < entries@.len() && entries@[m].0 == k && to_map(entries@)[k] == entries@[m].1@;
            assert(entries@[m].0 < table@.len());
        }
    }
    db.minimize();
    proof {
        lemma_to_map(db.entries@);
    }
    let mut out: Vec<(Qualification, Result<Option<PrerequisiteTree>, MinimizeError>)> = Vec::new();
    let mut e: usize = 0;
    while e < db.entries.len()
        invariant
            e <= db.entries@.len(),
            db.wf(),
            db.ordered(),
            db0 == built(trees@, table@),
            minimal(db@),
            no_duplicate_clause(db@),
            shrunk(db0, db@),
            derived(db0, db@),
            forall|sigma: Set<Sym>| model(db0, sigma) == model(db@, sigma),
            db_below(db@, table@.len() as nat),
            db0.dom() == db@.dom(),
            forall|k: Sym| db0.contains_key(k) ==> k < table@.len(),
            forall|k: Sym| db@.contains_key(k) <==> exists|m: int| 0 <= m < db.entries@.len() && db.entries@[m].0 == k,
            forall|m: int| 0 <= m < db.entries@.len() ==> db@[#[trigger] db.entries@[m].0] == db.entries@[m].1@,
            out@.len() == e,
            forall|m: int| 0 <= m < e ==> entry_ok(#[trigger] out@[m], db, table@, m),
        decreases db.entries@.len() - e,
    {
        let k = db.entries[e].0;
        let p = &db.entries[e].1;
        proof {
            assert(db@.contains_key(k));
            assert(db@[k] == p@);
            assert forall|i: int| 0 <= i < p.clauses@.len() implies sum_in_table(#[trigger] p.clauses@[i], table@) by {
                assert forall|q: int| 0 <= q < p.clauses@[i].inner@.len() implies (#[trigger] p.clauses@[i].inner@[q]) < table@.len() by {
                    assert(p@[i].contains(p.clauses@[i].inner@[q]));
                    assert(db@[k][i].contains(p.clauses@[i].inner@[q]));
                }
            }
        }
        let q = table.resolve(k).copy();
        let t = product_into_tree(p, table);
        let ghost old_out = out@;
        out.push((q, t));
        proof {
            assert(entry_ok(out@[e as int], db, table@, e as int));
            assert forall|m: int| 0 <= m < e + 1 implies entry_ok(#[trigger] out@[m], db, table@, m) by {
                if m < e {
                    assert(out@[m] == old_out[m]);
                }
            }
        }
        e = e + 1;
    }
    let n = out.len();
    let mut j: usize = 0;
    while j < large.len()
        invariant
            j <= large@.len(),
            n == db.entries@.len(),
            out@.len() == n + j,
            large@.len() == too_large(trees@, table@).len(),
            forall|m: int| 0 <= m < large@.len() ==> (#[trigger] large@[m])@ == too_large(trees@, table@)[m],
            forall|m: int| 0 <= m < n ==> entry_ok(#[trigger] out@[m], db, table@, m),
            forall|m: int| n <= m < n + j ==> (#[trigger] out@[m]).0@ == too_large(trees@, table@)[m - n]
                && out@[m].1 == Err::<Option<PrerequisiteTree>, MinimizeError>(MinimizeError::TooLarge),
        decreases large@.len() - j,
    {
        let ghost old_out = out@;
        out.push((large[j].copy(), Err(MinimizeError::TooLarge)));
        proof {
            assert forall|m: int| 0 <= m < n implies entry_ok(#[trigger] out@[m], db, table@, m) by {
                assert(out@[m] == old_out[m]);
            }
            assert forall|m: int| n <= m < n + j + 1 implies (#[trigger] out@[m]).0@ == too_large(trees@, table@)[m - n]
                && out@[m].1 == Err::<Option<PrerequisiteTree>, MinimizeError>(MinimizeError::TooLarge) by {
                if m < n + j {
                    assert(out@[m] == old_out[m]);
                }
            }
        }
        j = j + 1;
    }
    proof {
        assert(result_of(trees@, table@, db, out@));
    }
    out
}

} // verus!
