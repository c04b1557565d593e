use vstd::prelude::*;
use crate::restrictions::{CourseCode, ExamScore, Operator, PrerequisiteTree, Qualification, QualificationView};
use crate::convert::width;
use crate::process::{chars_of, decimal, is_digit};
use crate::subject::same_text;

verus! {

/// Where a token stands in the input, in bytes.
#[derive(Debug, Copy, Clone, PartialEq, Eq)]
pub struct Span {
    pub start: usize,
    pub end: usize,
}

/// What a token of a prerequisite text is.
#[derive(Debug)]
pub enum TokenKind {
    Qualification(Qualification),
    Operator(Operator),
    Comma,
    LeftParen,
    RightParen,
    GraduateStudentWaive,
    Eoi,
}

/// A token and where it stands.
#[derive(Debug)]
pub struct Token {
    pub kind: TokenKind,
    pub span: Span,
}

/// Why a prerequisite text could not be read.
#[derive(Debug)]
pub enum PrerequisiteStringError {
    InvalidToken { start: usize },
    ExpectedToken { expected: TokenKind, found: Token },
    NoSubjectContext { span: Span },
    ExpectedLeftParenOrQualification { found: Token },
    EarlyEoi,
}

/// The kind of a token, without what it carries.
pub enum Tk {
    Qual,
    All,
    Any,
    Comma,
    LParen,
    RParen,
    Waive,
    Eoi,
}

pub open spec fn tk(k: TokenKind) -> Tk {
    match k {
        TokenKind::Qualification(_) => Tk::Qual,
        TokenKind::Operator(Operator::All) => Tk::All,
        TokenKind::Operator(Operator::Any) => Tk::Any,
        TokenKind::Comma => Tk::Comma,
        TokenKind::LeftParen => Tk::LParen,
        TokenKind::RightParen => Tk::RParen,
        TokenKind::GraduateStudentWaive => Tk::Waive,
        TokenKind::Eoi => Tk::Eoi,
    }
}

/// The kinds of a sequence of tokens.
pub open spec fn kinds(ts: Seq<Token>) -> Seq<Tk> {
    ts.map_values(|t: Token| tk(t.kind))
}

/// Where a `base` (a qualification, a waiver, or a parenthesised `any_expr`) that
/// starts at `i` ends.
pub open spec fn bottom_end(t: Seq<Tk>, i: int) -> Option<int>
    decreases t.len() - i, 0int,
{
    if i < 0 || i >= t.len() {
        None
    } else {
        match t[i] {
            Tk::Qual => Some(i + 1),
            Tk::Waive => Some(i + 1),
            Tk::LParen => match any_end(t, i + 1) {
                Some(j) => if j < t.len() && t[j] == Tk::RParen {
                    Some(j + 1)
                } else {
                    None
                },
                None => None,
            },
            _ => None,
        }
    }
}

/// Where `(All base)*` that starts at `j` ends; reading needs a token after it.
pub open spec fn all_rest(t: Seq<Tk>, j: int) -> Option<int>
    decreases t.len() - j, 2int,
{
    if j < 0 || j >= t.len() {
        None
    } else if t[j] == Tk::All {
        match bottom_end(t, j + 1) {
            Some(k) => if j < k <= t.len() {
                all_rest(t, k)
            } else {
                None
            },
            None => None,
        }
    } else {
        Some(j)
    }
}

/// Where an `and_expr` (bases joined by "and") that starts at `i` ends.
pub open spec fn all_end(t: Seq<Tk>, i: int) -> Option<int>
    decreases t.len() - i, 1int,
{
    match bottom_end(t, i) {
        Some(j) => if i < j <= t.len() {
            all_rest(t, j)
        } else {
            None
        },
        None => None,
    }
}

/// Where `(Any and_expr)*` that starts at `j` ends; reading needs a token after it.
pub open spec fn any_rest(t: Seq<Tk>, j: int) -> Option<int>
    decreases t.len() - j, 4int,
{
    if j < 0 || j >= t.len() {
        None
    } else if t[j] == Tk::Any {
        match all_end(t, j + 1) {
            Some(k) => if j < k <= t.len() {
                any_rest(t, k)
            } else {
                None
            },
            None => None,
        }
    } else {
        Some(j)
    }
}

/// Where an `any_expr` (and_exprs joined by "or") that starts at `i` ends.
pub open spec fn any_end(t: Seq<Tk>, i: int) -> Option<int>
    decreases t.len() - i, 3int,
{
    match all_end(t, i) {
        Some(j) => if i < j <= t.len() {
            any_rest(t, j)
        } else {
            None
        },
        None => None,
    }
}

pub proof fn lemma_all_rest_forward(t: Seq<Tk>, j: int)
    ensures
        all_rest(t, j) matches Some(k) ==> j <= k < t.len(),
    decreases t.len() - j,
{
    if 0 <= j < t.len() && t[j] == Tk::All {
        if let Some(k) = bottom_end(t, j + 1) {
            if j < k <= t.len() {
                lemma_all_rest_forward(t, k);
            }
        }
    }
}

pub proof fn lemma_any_rest_forward(t: Seq<Tk>, j: int)
    ensures
        any_rest(t, j) matches Some(k) ==> j <= k < t.len(),
    decreases t.len() - j,
{
    if 0 <= j < t.len() && t[j] == Tk::Any {
        if let Some(k) = all_end(t, j + 1) {
            if j < k <= t.len() {
                lemma_any_rest_forward(t, k);
            }
        }
    }
}

/// Each expression that is read takes at least one token and leaves the rest in
/// the sequence.
pub proof fn lemma_ends_forward(t: Seq<Tk>, i: int)
    ensures
        bottom_end(t, i) matches Some(k) ==> i < k <= t.len(),
        all_end(t, i) matches Some(k) ==> i < k < t.len(),
        any_end(t, i) matches Some(k) ==> i < k < t.len(),
{
    if let Some(j) = bottom_end(t, i) {
        if i < j <= t.len() {
            lemma_all_rest_forward(t, j);
        }
    }
    if let Some(j) = all_end(t, i) {
        if i < j <= t.len() {
            lemma_any_rest_forward(t, j);
        }
    }
    if 0 <= i < t.len() && t[i] == Tk::LParen {
        if let Some(m) = all_end(t, i + 1) {
            if let Some(b) = bottom_end(t, i + 1) {
                if i + 1 < b <= t.len() {
                    lemma_all_rest_forward(t, b);
                }
            }
            if i + 1 < m <= t.len() {
                lemma_any_rest_forward(t, m);
            }
        }
    }
}

/// The qualifications of the tokens from `i` up to `j`, in order.
pub open spec fn quals(ts: Seq<Token>, i: int, j: int) -> Seq<QualificationView>
    decreases j - i,
{
    if j <= i {
        Seq::empty()
    } else {
        quals(ts, i, j - 1) + match ts[j - 1].kind {
            TokenKind::Qualification(q) => seq![q@],
            _ => Seq::empty(),
        }
    }
}

/// The qualifications of a tree (of its first `n` children), left to right.
pub open spec fn leaves_n(t: PrerequisiteTree, n: nat) -> Seq<QualificationView>
    decreases t, n,
{
    match t {
        PrerequisiteTree::Qualification(q) => seq![q@],
        PrerequisiteTree::Operator(_, cs) => {
            if n == 0 || n > cs@.len() {
                Seq::empty()
            } else {
                leaves_n(t, (n - 1) as nat) + leaves_n(cs@[n - 1], width(cs@[n - 1]))
            }
        },
    }
}

/// The qualifications of a tree, left to right.
pub open spec fn leaves(t: PrerequisiteTree) -> Seq<QualificationView> {
    leaves_n(t, width(t))
}

/// The qualifications of the first `n` trees of a sequence, left to right.
pub open spec fn seq_leaves(s: Seq<PrerequisiteTree>, n: nat) -> Seq<QualificationView>
    decreases n,
{
    if n == 0 || n > s.len() {
        Seq::empty()
    } else {
        seq_leaves(s, (n - 1) as nat) + leaves(s[n - 1])
    }
}

/// The qualifications of a tree, or none for no tree.
pub open spec fn opt_leaves(o: Option<PrerequisiteTree>) -> Seq<QualificationView> {
    match o {
        Some(t) => leaves(t),
        None => Seq::empty(),
    }
}

pub proof fn lemma_quals_split(ts: Seq<Token>, i: int, j: int, k: int)
    requires
        i <= j <= k,
    ensures
        quals(ts, i, k) == quals(ts, i, j) + quals(ts, j, k),
    decreases k - j,
{
    if j < k {
        lemma_quals_split(ts, i, j, k - 1);
        assert(quals(ts, i, k) =~= quals(ts, i, j) + quals(ts, j, k));
    } else {
        assert(quals(ts, j, k) =~= Seq::<QualificationView>::empty());
        assert(quals(ts, i, k) =~= quals(ts, i, j) + quals(ts, j, k));
    }
}

/// A node's qualifications are those of its children in order.
pub proof fn lemma_node_leaves(op: Operator, v: Vec<PrerequisiteTree>, n: nat)
    requires
        n <= v@.len(),
    ensures
        leaves_n(PrerequisiteTree::Operator(op, v), n) == seq_leaves(v@, n),
    decreases n,
{
    if n > 0 {
        lemma_node_leaves(op, v, (n - 1) as nat);
    }
}

/// Appending a tree keeps the qualifications of the earlier ones.
pub proof fn lemma_seq_leaves_push(s: Seq<PrerequisiteTree>, x: PrerequisiteTree, n: nat)
    requires
        n <= s.len(),
    ensures
        seq_leaves(s.push(x), n) == seq_leaves(s, n),
    decreases n,
{
    if n > 0 {
        lemma_seq_leaves_push(s, x, (n - 1) as nat);
        assert(s.push(x)[n - 1] == s[n - 1]);
    }
}

impl TokenKind {
    /// A copy of the kind.
    pub fn copy(&self) -> (r: TokenKind)
        ensures
            tk(r) == tk(*self),
            match (r, *self) {
                (TokenKind::Qualification(a), TokenKind::Qualification(b)) => a@ == b@,
                _ => true,
            },
    {
        match self {
            TokenKind::Qualification(q) => TokenKind::Qualification(q.copy()),
            TokenKind::Operator(o) => TokenKind::Operator(*o),
            TokenKind::Comma => TokenKind::Comma,
            TokenKind::LeftParen => TokenKind::LeftParen,
            TokenKind::RightParen => TokenKind::RightParen,
            TokenKind::GraduateStudentWaive => TokenKind::GraduateStudentWaive,
            TokenKind::Eoi => TokenKind::Eoi,
        }
    }

    /// The kind without what it carries.
    pub fn tk(&self) -> (r: Tk)
        ensures
            r == tk(*self),
    {
        match self {
            TokenKind::Qualification(_) => Tk::Qual,
            TokenKind::Operator(Operator::All) => Tk::All,
            TokenKind::Operator(Operator::Any) => Tk::Any,
            TokenKind::Comma => Tk::Comma,
            TokenKind::LeftParen => Tk::LParen,
            TokenKind::RightParen => Tk::RParen,
            TokenKind::GraduateStudentWaive => Tk::Waive,
            TokenKind::Eoi => Tk::Eoi,
        }
    }
}

impl Tk {
    pub fn is(&self, other: &Tk) -> (r: bool)
        ensures
            r == (*self == *other),
    {
        match (self, other) {
            (Tk::Qual, Tk::Qual) => true,
            (Tk::All, Tk::All) => true,
            (Tk::Any, Tk::Any) => true,
            (Tk::Comma, Tk::Comma) => true,
            (Tk::LParen, Tk::LParen) => true,
            (Tk::RParen, Tk::RParen) => true,
            (Tk::Waive, Tk::Waive) => true,
            (Tk::Eoi, Tk::Eoi) => true,
            _ => false,
        }
    }
}

impl Token {
    pub fn copy(&self) -> (r: Token)
        ensures
            tk(r.kind) == tk(self.kind),
            r.span == self.span,
    {
        Token { kind: self.kind.copy(), span: self.span }
    }
}

/// The tokens of a text and how many of them have been read.
pub struct TokenStream {
    pub tokens: Vec<Token>,
    pub index: usize,
}

impl TokenStream {
    pub open spec fn kinds(&self) -> Seq<Tk> {
        kinds(self.tokens@)
    }

    /// The next token, without reading it.
    pub fn peek_token(&self) -> (r: Result<Token, PrerequisiteStringError>)
        ensures
            match r {
                Ok(t) => self.index < self.tokens@.len() && tk(t.kind) == self.kinds()[self.index as int],
                Err(e) => self.index >= self.tokens@.len() && e is EarlyEoi,
            },
    {
        if self.index < self.tokens.len() {
            Ok(self.tokens[self.index].copy())
        } else {
            Err(PrerequisiteStringError::EarlyEoi)
        }
    }

    /// Reads the next token if it has the expected kind.
    pub fn consume_token(&mut self, token: Tk) -> (r: Result<(), PrerequisiteStringError>)
        requires
            token != Tk::Qual,
        ensures
            final(self).tokens@ == old(self).tokens@,
            r is Ok <==> old(self).index < old(self).tokens@.len() && old(self).kinds()[old(self).index as int] == token,
            r is Ok ==> final(self).index == old(self).index + 1,
            r is Err ==> final(self).index == old(self).index,
    {
        if self.index >= self.tokens.len() {
            return Err(PrerequisiteStringError::EarlyEoi);
        }
        let found = &self.tokens[self.index];
        if found.kind.tk().is(&token) {
            self.index = self.index + 1;
            Ok(())
        } else {
            let expected = match token {
                Tk::All => TokenKind::Operator(Operator::All),
                Tk::Any => TokenKind::Operator(Operator::Any),
                Tk::Comma => TokenKind::Comma,
                Tk::LParen => TokenKind::LeftParen,
                Tk::RParen => TokenKind::RightParen,
                Tk::Waive => TokenKind::GraduateStudentWaive,
                _ => TokenKind::Eoi,
            };
            Err(PrerequisiteStringError::ExpectedToken { expected, found: found.copy() })
        }
    }
}

/// Reads a `base`: a qualification, a waiver (no requirement), or an `any_expr` in
/// parentheses.
pub fn parse_bottom(tokens: &mut TokenStream) -> (r: Result<Option<PrerequisiteTree>, PrerequisiteStringError>)
    ensures
        final(tokens).tokens@ == old(tokens).tokens@,
        r is Ok <==> bottom_end(old(tokens).kinds(), old(tokens).index as int) is Some,
        r is Ok ==> final(tokens).index == bottom_end(old(tokens).kinds(), old(tokens).index as int)->Some_0,
        r matches Ok(o) ==> opt_leaves(o) == quals(old(tokens).tokens@, old(tokens).index as int, final(tokens).index as int),
    decreases old(tokens).tokens@.len() - old(tokens).index, 0int,
{
    let ghost t = tokens.kinds();
    let ghost i = tokens.index as int;
    if tokens.index >= tokens.tokens.len() {
        return Err(PrerequisiteStringError::EarlyEoi);
    }
    let at = tokens.index;
    assert(t[at as int] == tk(tokens.tokens@[at as int].kind));
    match &tokens.tokens[at].kind {
        TokenKind::Qualification(q) => {
            let q = q.copy();
            tokens.index = at + 1;
            let tree = PrerequisiteTree::Qualification(q);
            proof {
                assert(quals(tokens.tokens@, i, i) =~= Seq::<QualificationView>::empty());
                assert(quals(tokens.tokens@, i, i + 1) =~= seq![q@]);
            }
            Ok(Some(tree))
        },
        TokenKind::GraduateStudentWaive => {
            tokens.index = at + 1;
            proof {
                assert(quals(tokens.tokens@, i, i) =~= Seq::<QualificationView>::empty());
                assert(quals(tokens.tokens@, i, i + 1) =~= Seq::<QualificationView>::empty());
            }
            Ok(None)
        },
        TokenKind::LeftParen => {
            tokens.index = at + 1;
            let ghost ts = tokens.tokens@;
            let inner = parse_any_expr(tokens);
            match inner {
                Ok(tree) => {
                    proof {
                        lemma_ends_forward(t, i + 1);
                    }
                    let ghost j = tokens.index as int;
                    match tokens.consume_token(Tk::RParen) {
                        Ok(()) => {
                            proof {
                                assert(t[j] == tk(ts[j].kind));
                                assert(quals(ts, i, i) =~= Seq::<QualificationView>::empty());
                                assert(quals(ts, i, i + 1) =~= Seq::<QualificationView>::empty());
                                assert(quals(ts, j, j) =~= Seq::<QualificationView>::empty());
                                assert(quals(ts, j, j + 1) =~= Seq::<QualificationView>::empty());
                                lemma_quals_split(ts, i, i + 1, j);
                                lemma_quals_split(ts, i, j, j + 1);
                                assert(quals(ts, i, j + 1) =~= quals(ts, i + 1, j));
                            }
                            Ok(tree)
                        },
                        Err(e) => Err(e),
                    }
                },
                Err(e) => Err(e),
            }
        },
        _ => Err(PrerequisiteStringError::ExpectedLeftParenOrQualification { found: tokens.tokens[at].copy() }),
    }
}

/// Reads an `and_expr`: bases joined by "and". `None` when every base was a waiver.
pub fn parse_all_expr(tokens: &mut TokenStream) -> (r: Result<Option<PrerequisiteTree>, PrerequisiteStringError>)
    ensures
        final(tokens).tokens@ == old(tokens).tokens@,
        r is Ok <==> all_end(old(tokens).kinds(), old(tokens).index as int) is Some,
        r is Ok ==> final(tokens).index == all_end(old(tokens).kinds(), old(tokens).index as int)->Some_0,
        r matches Ok(o) ==> opt_leaves(o) == quals(old(tokens).tokens@, old(tokens).index as int, final(tokens).index as int),
    decreases old(tokens).tokens@.len() - old(tokens).index, 1int,
{
    let ghost t = tokens.kinds();
    let ghost i = tokens.index as int;
    let ghost ts = tokens.tokens@;
    let mut ret: Vec<PrerequisiteTree> = Vec::new();
    match parse_bottom(tokens) {
        Ok(Some(tree)) => {
            ret.push(tree);
            proof {
                assert(seq_leaves(ret@, 0) =~= Seq::<QualificationView>::empty());
                assert(seq_leaves(ret@, 1) =~= leaves(tree));
            }
        },
        Ok(None) => {},
        Err(e) => return Err(e),
    }
    proof {
        lemma_ends_forward(t, i);
    }
    loop
        invariant
            tokens.kinds() == t,
            tokens.tokens@ == old(tokens).tokens@,
            t == old(tokens).kinds(),
            i == old(tokens).index,
            tokens.index as int > i,
            tokens.index <= tokens.tokens@.len(),
            all_rest(t, tokens.index as int) == all_end(t, i),
            seq_leaves(ret@, ret@.len()) == quals(ts, i, tokens.index as int),
            ts == old(tokens).tokens@,
        ensures
            tokens.tokens@ == old(tokens).tokens@,
            all_end(t, i) == Some(tokens.index as int),
            seq_leaves(ret@, ret@.len()) == quals(ts, i, tokens.index as int),
        decreases t.len() - tokens.index,
    {
        let next = tokens.peek_token();
        match next {
            Err(e) => return Err(e),
            Ok(token) => {
                if !token.kind.tk().is(&Tk::All) {
                    break;
                }
            },
        }
        let ghost j = tokens.index as int;
        match tokens.consume_token(Tk::All) {
            Ok(()) => {},
            Err(e) => return Err(e),
        }
        proof {
            assert(t[j] == tk(ts[j].kind));
            assert(quals(ts, j, j) =~= Seq::<QualificationView>::empty());
            assert(quals(ts, j, j + 1) =~= Seq::<QualificationView>::empty());
            lemma_quals_split(ts, i, j, j + 1);
        }
        let ghost before = ret@;
        match parse_bottom(tokens) {
            Ok(Some(tree)) => {
                ret.push(tree);
                proof {
                    lemma_seq_leaves_push(before, tree, before.len());
                    assert(ret@ == before.push(tree));
                }
            },
            Ok(None) => {},
            Err(e) => return Err(e),
        }
        proof {
            lemma_ends_forward(t, j + 1);
            lemma_quals_split(ts, i, j + 1, tokens.index as int);
        }
    }
    if ret.len() < 2 {
        let ghost all_ret = ret@;
        let last = ret.pop();
        proof {
            assert(seq_leaves(all_ret, 0) =~= Seq::<QualificationView>::empty());
            if all_ret.len() == 1 {
                assert(last == Some(all_ret[0]));
                assert(seq_leaves(all_ret, 1) =~= leaves(all_ret[0]));
            }
        }
        Ok(last)
    } else {
        let ghost v = ret;
        let node = PrerequisiteTree::Operator(Operator::All, ret);
        proof {
            lemma_node_leaves(Operator::All, v, v@.len());
            assert(leaves(node) == seq_leaves(v@, v@.len()));
        }
        Ok(Some(node))
    }
}

/// Reads an `any_expr`: and_exprs joined by "or". `None` when every part was a
/// waiver.
pub fn parse_any_expr(tokens: &mut TokenStream) -> (r: Result<Option<PrerequisiteTree>, PrerequisiteStringError>)
    ensures
        final(tokens).tokens@ == old(tokens).tokens@,
        r is Ok <==> any_end(old(tokens).kinds(), old(tokens).index as int) is Some,
        r is Ok ==> final(tokens).index == any_end(old(tokens).kinds(), old(tokens).index as int)->Some_0,
        r matches Ok(o) ==> opt_leaves(o) == quals(old(tokens).tokens@, old(tokens).index as int, final(tokens).index as int),
    decreases old(tokens).tokens@.len() - old(tokens).index, 3int,
{
    let ghost t = tokens.kinds();
    let ghost i = tokens.index as int;
    let ghost ts = tokens.tokens@;
    let mut ret: Vec<PrerequisiteTree> = Vec::new();
    match parse_all_expr(tokens) {
        Ok(Some(tree)) => {
            ret.push(tree);
            proof {
                assert(seq_leaves(ret@, 0) =~= Seq::<QualificationView>::empty());
                assert(seq_leaves(ret@, 1) =~= leaves(tree));
            }
        },
        Ok(None) => {},
        Err(e) => return Err(e),
    }
    proof {
        lemma_ends_forward(t, i);
    }
    loop
        invariant
            tokens.kinds() == t,
            tokens.tokens@ == old(tokens).tokens@,
            t == old(tokens).kinds(),
            i == old(tokens).index,
            tokens.index as int > i,
            tokens.index <= tokens.tokens@.len(),
            any_rest(t, tokens.index as int) == any_end(t, i),
            seq_leaves(ret@, ret@.len()) == quals(ts, i, tokens.index as int),
            ts == old(tokens).tokens@,
        ensures
            tokens.tokens@ == old(tokens).tokens@,
            any_end(t, i) == Some(tokens.index as int),
            seq_leaves(ret@, ret@.len()) == quals(ts, i, tokens.index as int),
        decreases t.len() - tokens.index,
    {
        let next = tokens.peek_token();
        match next {
            Err(e) => return Err(e),
            Ok(token) => {
                if !token.kind.tk().is(&Tk::Any) {
                    break;
                }
            },
        }
        let ghost j = tokens.index as int;
        match tokens.consume_token(Tk::Any) {
            Ok(()) => {},
            Err(e) => return Err(e),
        }
        proof {
            assert(t[j] == tk(ts[j].kind));
            assert(quals(ts, j, j) =~= Seq::<QualificationView>::empty());
            assert(quals(ts, j, j + 1) =~= Seq::<QualificationView>::empty());
            lemma_quals_split(ts, i, j, j + 1);
        }
        let ghost before = ret@;
        match parse_all_expr(tokens) {
            Ok(Some(tree)) => {
                ret.push(tree);
                proof {
                    lemma_seq_leaves_push(before, tree, before.len());
                    assert(ret@ == before.push(tree));
                }
            },
            Ok(None) => {},
            Err(e) => return Err(e),
        }
        proof {
            lemma_ends_forward(t, j + 1);
            lemma_quals_split(ts, i, j + 1, tokens.index as int);
        }
    }
    if ret.len() < 2 {
        let ghost all_ret = ret@;
        let last = ret.pop();
        proof {
            assert(seq_leaves(all_ret, 0) =~= Seq::<QualificationView>::empty());
            if all_ret.len() == 1 {
                assert(last == Some(all_ret[0]));
                assert(seq_leaves(all_ret, 1) =~= leaves(all_ret[0]));
            }
        }
        Ok(last)
    } else {
        let ghost v = ret;
        let node = PrerequisiteTree::Operator(Operator::Any, ret);
        proof {
            lemma_node_leaves(Operator::Any, v, v@.len());
            assert(leaves(node) == seq_leaves(v@, v@.len()));
        }
        Ok(Some(node))
    }
}


/// Reads a whole token list: an `any_expr` followed by the end of input. `None`
/// when the text only waives.
pub fn parse_tokens(tokens: Vec<Token>) -> (r: Result<Option<PrerequisiteTree>, PrerequisiteStringError>)
    ensures
        r is Ok <==> (any_end(kinds(tokens@), 0) matches Some(k) && kinds(tokens@)[k] == Tk::Eoi),
        r matches Ok(o) ==> opt_leaves(o) == quals(tokens@, 0, any_end(kinds(tokens@), 0)->Some_0),
{
    let ghost t = kinds(tokens@);
    let mut stream = TokenStream { tokens, index: 0 };
    let ret = parse_any_expr(&mut stream);
    proof {
        lemma_ends_forward(t, 0);
    }
    match stream.consume_token(Tk::Eoi) {
        Ok(()) => ret,
        Err(e) => Err(e),
    }
}

/// The paren level after position `p`: counted from the end, "(" raises it and ")"
/// lowers it.
pub open spec fn level_after(t: Seq<Tk>, p: int) -> int
    decreases t.len() - p,
{
    if p + 1 >= t.len() || p + 1 < 0 {
        0
    } else {
        level_after(t, p + 1) + if t[p + 1] == Tk::LParen {
            1int
        } else if t[p + 1] == Tk::RParen {
            -1int
        } else {
            0int
        }
    }
}

/// The first operator after position `p` whose level is `lvl`.
pub open spec fn nearest_op(t: Seq<Tk>, p: int, lvl: int) -> Option<Tk>
    decreases t.len() - p,
{
    if p + 1 >= t.len() || p + 1 < 0 {
        None
    } else if (t[p + 1] == Tk::All || t[p + 1] == Tk::Any) && level_after(t, p + 1) == lvl {
        Some(t[p + 1])
    } else {
        nearest_op(t, p + 1, lvl)
    }
}

/// A comma stands for the operator that follows it at its own level ("or" when none
/// does); other tokens stand for themselves.
pub open spec fn resolved(t: Seq<Tk>, p: int) -> Tk {
    if t[p] == Tk::Comma {
        match nearest_op(t, p, level_after(t, p)) {
            Some(op) => op,
            None => Tk::Any,
        }
    } else {
        t[p]
    }
}

/// The operator stored for a level, the latest first.
pub open spec fn lookup(m: Seq<(i128, Operator)>, lvl: int) -> Option<Tk>
    decreases m.len(),
{
    if m.len() == 0 {
        None
    } else if m.last().0 as int == lvl {
        Some(match m.last().1 {
            Operator::All => Tk::All,
            Operator::Any => Tk::Any,
        })
    } else {
        lookup(m.drop_last(), lvl)
    }
}

/// Replaces each comma by the operator it stands for.
pub fn de_comma(tokens: &mut Vec<Token>)
    ensures
        final(tokens)@.len() == old(tokens)@.len(),
        forall|p: int| 0 <= p < old(tokens)@.len() ==> tk((#[trigger] final(tokens)@[p]).kind) == resolved(kinds(old(tokens)@), p),
        forall|p: int| 0 <= p < old(tokens)@.len() && tk(old(tokens)@[p].kind) != Tk::Comma ==> #[trigger] final(tokens)@[p] == old(tokens)@[p],
{
    let ghost t = kinds(tokens@);
    let ghost orig = tokens@;
    assert(tokens.len() == tokens@.len());
    let mut conjunctives: Vec<(i128, Operator)> = Vec::new();
    let mut level: i128 = 0;
    let mut p: usize = tokens.len();
    while p > 0
        invariant
            p <= orig.len(),
            tokens@.len() == orig.len(),
            orig.len() <= usize::MAX,
            t == kinds(orig),
            level as int == level_after(t, p as int - 1),
            -(orig.len() as int - p as int) <= level <= orig.len() as int - p as int,
            forall|lvl: int| #[trigger] lookup(conjunctives@, lvl) == nearest_op(t, p as int - 1, lvl),
            forall|q: int| 0 <= q < p ==> #[trigger] tokens@[q] == orig[q],
            forall|q: int| p <= q < orig.len() ==> tk((#[trigger] tokens@[q]).kind) == resolved(t, q),
            forall|q: int| p <= q < orig.len() && tk(orig[q].kind) != Tk::Comma ==> #[trigger] tokens@[q] == orig[q],
        decreases p,
    {
        p = p - 1;
        let ghost before = tokens@;
        let ghost m0 = conjunctives@;
        let ghost level0 = level as int;
        assert(t[p as int] == tk(orig[p as int].kind));
        let k = tokens[p].kind.tk();
        match k {
            Tk::All => {
                conjunctives.push((level, Operator::All));
            },
            Tk::Any => {
                conjunctives.push((level, Operator::Any));
            },
            Tk::LParen => {
                level = level + 1;
            },
            Tk::RParen => {
                level = level - 1;
            },
            Tk::Comma => {
                let op = find_level(&conjunctives, level);
                let kind = match op {
                    Some(o) => TokenKind::Operator(o),
                    None => TokenKind::Operator(Operator::Any),
                };
                let span = tokens[p].span;
                let mut replacement = Token { kind, span };
                tokens.set_and_swap(p, &mut replacement);
            },
            _ => {},
        }
        proof {
            assert(level0 == level_after(t, p as int));
            assert(level as int == level_after(t, p as int - 1));
            assert forall|lvl: int| #[trigger] lookup(conjunctives@, lvl) == nearest_op(t, p as int - 1, lvl) by {
                assert(lookup(m0, lvl) == nearest_op(t, p as int, lvl));
                if k == Tk::All || k == Tk::Any {
                    assert(conjunctives@.drop_last() =~= m0);
                }
            }
            assert forall|q: int| p <= q < orig.len() implies tk((#[trigger] tokens@[q]).kind) == resolved(t, q) by {
                if q > p {
                    assert(tokens@[q] == before[q]);
                }
            }
            assert forall|q: int| p <= q < orig.len() && tk(orig[q].kind) != Tk::Comma implies #[trigger] tokens@[q] == orig[q] by {
                if q > p {
                    assert(tokens@[q] == before[q]);
                }
            }
        }
    }
}

/// The operator stored for a level, the latest first.
fn find_level(m: &Vec<(i128, Operator)>, lvl: i128) -> (r: Option<Operator>)
    ensures
        lookup(m@, lvl as int) == match r {
            Some(Operator::All) => Some(Tk::All),
            Some(Operator::Any) => Some(Tk::Any),
            None => None,
        },
{
    let mut i: usize = m.len();
    assert(m@.take(m@.len() as int) =~= m@);
    while i > 0
        invariant
            i <= m@.len(),
            lookup(m@, lvl as int) == lookup(m@.take(i as int), lvl as int),
        decreases i,
    {
        assert(m@.take(i as int).drop_last() =~= m@.take(i as int - 1));
        if m[i - 1].0 == lvl {
            return Some(m[i - 1].1);
        }
        i = i - 1;
    }
    None
}


/// What the token pattern matched at the start of a text: its length in bytes, the
/// whole match, and the named groups that took part.
pub struct RawToken {
    pub len: usize,
    pub text: String,
    pub score: Option<String>,
    pub exam: Option<String>,
    pub subj: Option<String>,
    pub num: Option<String>,
}

pub open spec fn opt_view(o: Option<String>) -> Option<Seq<char>> {
    match o {
        Some(s) => Some(s@),
        None => None,
    }
}

pub open spec fn raw_view(r: RawToken) -> (nat, Seq<char>, Option<Seq<char>>, Option<Seq<char>>, Option<Seq<char>>, Option<Seq<char>>) {
    (r.len as nat, r.text@, opt_view(r.score), opt_view(r.exam), opt_view(r.subj), opt_view(r.num))
}

/// What the token pattern matches at byte `start` of a text.
pub uninterp spec fn token_match(s: Seq<char>, start: nat) -> Option<(nat, Seq<char>, Option<Seq<char>>, Option<Seq<char>>, Option<Seq<char>>, Option<Seq<char>>)>;

/// Relies on `regex::Regex::captures` with the token pattern, applied to the text
/// from byte `start` on: the match anchored there and its named groups.
#[verifier::external_body]
fn match_token(s: &str, start: usize) -> (r: Option<RawToken>)
    ensures
        match r {
            Some(m) => token_match(s@, start as nat) == Some(raw_view(m)),
            None => token_match(s@, start as nat) is None,
        },
{
    let re = regex::Regex::new(r"^( |and|or|,|\(|\)|minimum score of WAIVE in 'Graduate Student PreReq'|minimum score of (?P<score>\d*?) in '(?P<exam>.*?)'|((?P<subj>[A-Z]{3,4}) )?(?P<num>\d{4}[A-Z]?)\*?)").unwrap();
    let caps = re.captures(s.get(start..)?)?;
    let whole = caps.get(0)?.as_str();
    let group = |name: &str| caps.name(name).map(|m| m.as_str().to_string());
    Some(RawToken { len: whole.len(), text: whole.to_string(), score: group("score"), exam: group("exam"), subj: group("subj"), num: group("num") })
}

/// The value of a text of decimal digits, if it is one and fits in a `u32`.
pub fn parse_u32(string: &str) -> (r: Option<u32>)
    ensures
        match r {
            Some(v) => string@.len() > 0 && (forall|i: int| 0 <= i < string@.len() ==> is_digit(#[trigger] string@[i])) && v as nat == decimal(string@),
            None => string@.len() == 0 || (exists|i: int| 0 <= i < string@.len() && !is_digit(#[trigger] string@[i])) || decimal(string@) > u32::MAX,
        },
{
    let cs = chars_of(string);
    if cs.len() == 0 {
        return None;
    }
    let mut v: u64 = 0;
    let mut i: usize = 0;
    while i < cs.len()
        invariant
            i <= cs@.len(),
            cs@ == string@,
            forall|k: int| 0 <= k < i ==> is_digit(#[trigger] cs@[k]),
            v as nat == decimal(cs@.take(i as int)),
            v <= u32::MAX,
        decreases cs@.len() - i,
    {
        let c = cs[i];
        if !('0' <= c && c <= '9') {
            assert(!is_digit(cs@[i as int]));
            return None;
        }
        assert(cs@.take(i as int + 1).drop_last() =~= cs@.take(i as int));
        v = v * 10 + (c as u32 - '0' as u32) as u64;
        if v > u32::MAX as u64 {
            proof {
                lemma_decimal_grows(cs@, i as int + 1);
            }
            return None;
        }
        i = i + 1;
    }
    assert(cs@.take(cs@.len() as int) =~= cs@);
    Some(v as u32)
}

/// A longer run of digits has at least the value of its prefix.
pub proof fn lemma_decimal_grows(cs: Seq<char>, n: int)
    requires
        0 <= n <= cs.len(),
        forall|i: int| 0 <= i < cs.len() ==> is_digit(#[trigger] cs[i]) || i >= n,
    ensures
        decimal(cs) >= decimal(cs.take(n)) || exists|i: int| n <= i < cs.len() && !is_digit(#[trigger] cs[i]),
    decreases cs.len(),
{
    if cs.len() > n {
        let d = cs.drop_last();
        assert(d.take(n) =~= cs.take(n));
        if forall|i: int| n <= i < cs.len() ==> is_digit(#[trigger] cs[i]) {
            lemma_decimal_grows(d, n);
            assert(decimal(cs) >= decimal(d)) by (nonlinear_arith)
                requires
                    decimal(cs) == decimal(d) * 10 + (cs.last() as nat - '0' as nat) as nat;
        }
    } else {
        assert(cs.take(n) =~= cs);
    }
}

/// What a token is, as plain values.
pub enum TokenView {
    Qual(QualificationView),
    All,
    Any,
    Comma,
    LParen,
    RParen,
    Waive,
    Eoi,
}

pub open spec fn token_view(k: TokenKind) -> TokenView {
    match k {
        TokenKind::Qualification(q) => TokenView::Qual(q@),
        TokenKind::Operator(Operator::All) => TokenView::All,
        TokenKind::Operator(Operator::Any) => TokenView::Any,
        TokenKind::Comma => TokenView::Comma,
        TokenKind::LeftParen => TokenView::LParen,
        TokenKind::RightParen => TokenView::RParen,
        TokenKind::GraduateStudentWaive => TokenView::Waive,
        TokenKind::Eoi => TokenView::Eoi,
    }
}

/// The kinds of a sequence of tokens, with what they carry.
pub open spec fn token_views(ts: Seq<Token>) -> Seq<TokenView> {
    ts.map_values(|t: Token| token_view(t.kind))
}

/// The value of a text of decimal digits that fits in a `u32`.
pub open spec fn digits_value(cs: Seq<char>) -> Option<u32> {
    if cs.len() > 0 && (forall|i: int| 0 <= i < cs.len() ==> is_digit(#[trigger] cs[i])) && decimal(cs) <= u32::MAX {
        Some(decimal(cs) as u32)
    } else {
        None
    }
}

/// The token a match stands for, given the last subject seen, and the subject seen
/// after it: `Some(None)` for a space, `None` for a match that is no token.
pub open spec fn classified(
    m: (nat, Seq<char>, Option<Seq<char>>, Option<Seq<char>>, Option<Seq<char>>, Option<Seq<char>>),
    last: Option<Seq<char>>,
) -> (Option<Option<TokenView>>, Option<Seq<char>>) {
    let text = m.1;
    if text == " "@ {
        (Some(None), last)
    } else if text == "minimum score of WAIVE in 'Graduate Student PreReq'"@ {
        (Some(Some(TokenView::Waive)), last)
    } else if text == "and"@ {
        (Some(Some(TokenView::All)), last)
    } else if text == "or"@ {
        (Some(Some(TokenView::Any)), last)
    } else if text == ","@ {
        (Some(Some(TokenView::Comma)), last)
    } else if text == "("@ {
        (Some(Some(TokenView::LParen)), last)
    } else if text == ")"@ {
        (Some(Some(TokenView::RParen)), last)
    } else if m.2 is Some {
        if m.3 is Some && digits_value(m.2->Some_0) is Some {
            (Some(Some(TokenView::Qual(QualificationView::ExamScore(m.3->Some_0, digits_value(m.2->Some_0)->Some_0)))), last)
        } else {
            (None, last)
        }
    } else if m.5 is Some {
        let l2 = if m.4 is Some { m.4 } else { last };
        if l2 is Some {
            (Some(Some(TokenView::Qual(QualificationView::Course(l2->Some_0, m.5->Some_0)))), l2)
        } else {
            (None, l2)
        }
    } else {
        (None, last)
    }
}

/// The tokens of a text of `n` bytes from byte `i` on, the last subject seen being
/// `last`: each match of the token pattern classified, spaces dropped, the end of
/// input appended; `None` when some match is missing or is no token.
pub open spec fn scan(s: Seq<char>, n: nat, i: nat, last: Option<Seq<char>>) -> Option<Seq<TokenView>>
    decreases n - i,
{
    if i >= n {
        Some(seq![TokenView::Eoi])
    } else {
        match token_match(s, i) {
            None => None,
            Some(m) => if m.0 == 0 || m.0 > n - i {
                None
            } else {
                let (c, l2) = classified(m, last);
                match c {
                    None => None,
                    Some(None) => scan(s, n, i + m.0, l2),
                    Some(Some(tv)) => match scan(s, n, i + m.0, l2) {
                        Some(rest) => Some(seq![tv] + rest),
                        None => None,
                    },
                }
            },
        }
    }
}

/// What `classify` gave, as plain values.
pub open spec fn classify_view(r: Result<Option<TokenKind>, PrerequisiteStringError>) -> Option<Option<TokenView>> {
    match r {
        Ok(Some(k)) => Some(Some(token_view(k))),
        Ok(None) => Some(None),
        Err(_) => None,
    }
}

/// The token a match stands for: `Ok(None)` for a space, the kind of a keyword or
/// punctuation, an exam score, or a course whose subject is the one given or else
/// the last one seen.
pub fn classify(raw: &RawToken, last_subject: &mut Option<String>, span: Span) -> (r: Result<Option<TokenKind>, PrerequisiteStringError>)
    ensures
        raw.text@ == " "@ ==> r matches Ok(None),
        raw.text@ == "and"@ ==> r matches Ok(Some(TokenKind::Operator(Operator::All))),
        raw.text@ == "or"@ ==> r matches Ok(Some(TokenKind::Operator(Operator::Any))),
        raw.text@ == ","@ ==> r matches Ok(Some(TokenKind::Comma)),
        raw.text@ == "("@ ==> r matches Ok(Some(TokenKind::LeftParen)),
        raw.text@ == ")"@ ==> r matches Ok(Some(TokenKind::RightParen)),
        r matches Ok(Some(TokenKind::Qualification(Qualification::ExamScore(e)))) ==> (raw.exam is Some && e.exam@ == raw.exam->Some_0@
            && raw.score is Some && e.score as nat == decimal(raw.score->Some_0@)),
        r matches Ok(Some(TokenKind::Qualification(Qualification::Course(c)))) ==> (raw.num is Some && c.number@ == raw.num->Some_0@
            && (*final(last_subject)) is Some && c.subject@ == (*final(last_subject))->Some_0@),
        r matches Ok(Some(TokenKind::Qualification(Qualification::Course(c)))) ==> (raw.subj is Some ==> c.subject@ == raw.subj->Some_0@),
        r matches Err(PrerequisiteStringError::NoSubjectContext { .. }) ==> (raw.subj is None && (*old(last_subject)) is None),
        classified(raw_view(*raw), opt_view(*old(last_subject))) == (classify_view(r), opt_view(*final(last_subject))),
{
    proof {
        reveal_strlit(" ");
        reveal_strlit("and");
        reveal_strlit("or");
        reveal_strlit(",");
        reveal_strlit("(");
        reveal_strlit(")");
        reveal_strlit("minimum score of WAIVE in 'Graduate Student PreReq'");
        assert(" "@.len() == 1 && ","@.len() == 1 && "("@.len() == 1 && ")"@.len() == 1);
        assert("and"@.len() == 3 && "or"@.len() == 2);
        assert("minimum score of WAIVE in 'Graduate Student PreReq'"@.len() > 3);
        assert(" "@[0] == ' ' && ","@[0] == ',' && "("@[0] == '(' && ")"@[0] == ')');
    }
    let text = raw.text.as_str();
    if same_text(text, " ") {
        return Ok(None);
    }
    if same_text(text, "minimum score of WAIVE in 'Graduate Student PreReq'") {
        return Ok(Some(TokenKind::GraduateStudentWaive));
    }
    if same_text(text, "and") {
        return Ok(Some(TokenKind::Operator(Operator::All)));
    }
    if same_text(text, "or") {
        return Ok(Some(TokenKind::Operator(Operator::Any)));
    }
    if same_text(text, ",") {
        return Ok(Some(TokenKind::Comma));
    }
    if same_text(text, "(") {
        return Ok(Some(TokenKind::LeftParen));
    }
    if same_text(text, ")") {
        return Ok(Some(TokenKind::RightParen));
    }
    match (&raw.score, &raw.exam) {
        (Some(score), Some(exam)) => {
            return match parse_u32(score.as_str()) {
                Some(v) => Ok(Some(TokenKind::Qualification(Qualification::ExamScore(ExamScore { exam: exam.clone(), score: v })))),
                None => Err(PrerequisiteStringError::InvalidToken { start: span.start }),
            };
        },
        (Some(_), None) => {
            return Err(PrerequisiteStringError::InvalidToken { start: span.start });
        },
        _ => {},
    }
    match &raw.num {
        Some(num) => {
            match &raw.subj {
                Some(subj) => {
                    *last_subject = Some(subj.clone());
                },
                None => {},
            }
            match last_subject {
                Some(subject) => Ok(Some(TokenKind::Qualification(Qualification::Course(CourseCode { subject: subject.clone(), number: num.clone() })))),
                None => Err(PrerequisiteStringError::NoSubjectContext { span }),
            }
        },
        None => Err(PrerequisiteStringError::InvalidToken { start: span.start }),
    }
}

/// Cuts a text into tokens and appends the end of input.
pub fn tokenize(string: &str) -> (r: Result<Vec<Token>, PrerequisiteStringError>)
    ensures
        match r {
            Ok(ts) => scan(string@, string.len() as nat, 0, None) == Some(token_views(ts@)),
            Err(_) => scan(string@, string.len() as nat, 0, None) is None,
        },
        r matches Ok(ts) ==> ts@.len() > 0 && tk(ts@.last().kind) == Tk::Eoi
            && forall|p: int| 0 <= p < ts@.len() - 1 ==> tk((#[trigger] ts@[p]).kind) != Tk::Eoi,
{
    let n = string.len();
    let ghost sv = string@;
    let mut last_subject: Option<String> = None;
    let mut ret: Vec<Token> = Vec::new();
    let mut i: usize = 0;
    proof {
        assert(token_views(ret@) =~= Seq::<TokenView>::empty());
        assert(scan(sv, n as nat, 0, None) == match scan(sv, n as nat, 0, opt_view(last_subject)) {
            Some(rest) => Some(token_views(ret@) + rest),
            None => None::<Seq<TokenView>>,
        }) by {
            if let Some(rest) = scan(sv, n as nat, 0, None) {
                assert(token_views(ret@) + rest =~= rest);
            }
        }
    }
    while i < n
        invariant
            i <= n,
            n == string.len(),
            sv == string@,
            forall|p: int| 0 <= p < ret@.len() ==> tk((#[trigger] ret@[p]).kind) != Tk::Eoi,
            scan(sv, n as nat, 0, None) == match scan(sv, n as nat, i as nat, opt_view(last_subject)) {
                Some(rest) => Some(token_views(ret@) + rest),
                None => None::<Seq<TokenView>>,
            },
        decreases n - i,
    {
        let raw = match match_token(string, i) {
            Some(raw) => raw,
            None => return Err(PrerequisiteStringError::InvalidToken { start: i }),
        };
        if raw.len == 0 || raw.len > n - i {
            return Err(PrerequisiteStringError::InvalidToken { start: i });
        }
        let span = Span { start: i, end: i + raw.len };
        let ghost last0 = opt_view(last_subject);
        let ghost i0 = i as nat;
        i = i + raw.len;
        let c = classify(&raw, &mut last_subject, span);
        proof {
            assert(raw_view(raw).0 == raw.len as nat);
            assert(scan(sv, n as nat, i0, last0) == match classified(raw_view(raw), last0).0 {
                None => None::<Seq<TokenView>>,
                Some(None) => scan(sv, n as nat, i as nat, opt_view(last_subject)),
                Some(Some(tv)) => match scan(sv, n as nat, i as nat, opt_view(last_subject)) {
                    Some(rest) => Some(seq![tv] + rest),
                    None => None::<Seq<TokenView>>,
                },
            });
        }
        match c {
            Ok(Some(kind)) => {
                let ghost old_ret = ret@;
                let ghost tv = token_view(kind);
                ret.push(Token { kind, span });
                proof {
                    assert(tv != TokenView::Eoi);
                    assert forall|p: int| 0 <= p < ret@.len() implies tk((#[trigger] ret@[p]).kind) != Tk::Eoi by {
                        if p < old_ret.len() {
                            assert(ret@[p] == old_ret[p]);
                        }
                    }
                    assert(token_views(ret@) =~= token_views(old_ret).push(tv));
                    if let Some(rest) = scan(sv, n as nat, i as nat, opt_view(last_subject)) {
                        assert(token_views(old_ret) + (seq![tv] + rest) =~= token_views(ret@) + rest);
                    }
                }
            },
            Ok(None) => {},
            Err(e) => return Err(e),
        }
    }
    let start = if n > 0 { n - 1 } else { 0 };
    let ghost old_ret = ret@;
    ret.push(Token { kind: TokenKind::Eoi, span: Span { start, end: n } });
    proof {
        assert forall|p: int| 0 <= p < ret@.len() - 1 implies tk((#[trigger] ret@[p]).kind) != Tk::Eoi by {
            assert(ret@[p] == old_ret[p]);
        }
        assert(token_views(ret@) =~= token_views(old_ret) + seq![TokenView::Eoi]);
    }
    Ok(ret)
}

/// Reads a prerequisite text into a requirement tree: tokens, commas resolved, then
/// an `any_expr` up to the end of input. `Ok(None)` when the text only waives.
pub fn parse_prerequisite_string(string: &str) -> (r: Result<Option<PrerequisiteTree>, PrerequisiteStringError>)
    ensures
        r is Ok ==> scan(string@, string.len() as nat, 0, None) is Some && exists|ts: Seq<Token>|
            token_views(ts) == scan(string@, string.len() as nat, 0, None)->Some_0 && #[trigger] parsed_as(ts, r->Ok_0),
        r is Err ==> scan(string@, string.len() as nat, 0, None) is None || exists|ts: Seq<Token>|
            token_views(ts) == scan(string@, string.len() as nat, 0, None)->Some_0 && !#[trigger] accepted(ts),
{
    let mut tokens = match tokenize(string) {
        Ok(tokens) => tokens,
        Err(e) => return Err(e),
    };
    let ghost orig = tokens@;
    de_comma(&mut tokens);
    proof {
        assert(kinds(tokens@) =~= resolved_kinds(orig));
    }
    let ghost done = tokens@;
    let r = parse_tokens(tokens);
    proof {
        if r is Ok {
            assert(accepted(orig));
            lemma_ends_forward(resolved_kinds(orig), 0);
            lemma_quals_resolved(orig, done, any_end(resolved_kinds(orig), 0)->Some_0);
            assert(parsed_as(orig, r->Ok_0));
        } else {
            assert(!accepted(orig));
        }
    }
    r
}

/// The token list reads, commas resolved, as a requirement whose qualifications
/// are those of the tokens, in order.
pub open spec fn parsed_as(ts: Seq<Token>, o: Option<PrerequisiteTree>) -> bool {
    accepted(ts) && opt_leaves(o) == quals(ts, 0, any_end(resolved_kinds(ts), 0)->Some_0)
}

/// What a comma resolves to is an operator.
proof fn lemma_nearest_is_op(t: Seq<Tk>, p: int, lvl: int)
    ensures
        nearest_op(t, p, lvl) matches Some(x) ==> (x == Tk::All || x == Tk::Any),
    decreases t.len() - p,
{
    if p + 1 < t.len() && p + 1 >= 0 {
        lemma_nearest_is_op(t, p + 1, lvl);
    }
}

/// Resolving commas changes no qualification.
proof fn lemma_quals_resolved(a: Seq<Token>, b: Seq<Token>, j: int)
    requires
        a.len() == b.len(),
        0 <= j <= a.len(),
        forall|p: int| 0 <= p < a.len() ==> tk((#[trigger] b[p]).kind) == resolved(kinds(a), p),
        forall|p: int| 0 <= p < a.len() && tk(a[p].kind) != Tk::Comma ==> #[trigger] b[p] == a[p],
    ensures
        quals(a, 0, j) == quals(b, 0, j),
    decreases j,
{
    if j > 0 {
        lemma_quals_resolved(a, b, j - 1);
        let p = j - 1;
        assert(kinds(a)[p] == tk(a[p].kind));
        if tk(a[p].kind) == Tk::Comma {
            lemma_nearest_is_op(kinds(a), p, level_after(kinds(a), p));
            assert(tk(b[p].kind) == resolved(kinds(a), p));
            assert(tk(b[p].kind) != Tk::Qual);
        } else {
            assert(b[p] == a[p]);
        }
    }
}

/// The kinds of a token list once its commas are resolved.
pub open spec fn resolved_kinds(ts: Seq<Token>) -> Seq<Tk> {
    Seq::new(ts.len(), |p: int| resolved(kinds(ts), p))
}

/// The token list, commas resolved, reads as an `any_expr` up to the end of input.
pub open spec fn accepted(ts: Seq<Token>) -> bool {
    any_end(resolved_kinds(ts), 0) matches Some(k) && resolved_kinds(ts)[k] == Tk::Eoi
}

} // verus!
