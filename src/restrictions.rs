use vstd::prelude::*;

verus! {

/// A course code: its subject and its number, as in "MATH 0100".
#[derive(Debug, Clone, PartialEq, Eq, PartialOrd, Ord, Hash)]
pub struct CourseCode {
    pub subject: String,
    pub number: String,
}

/// A minimum score on a named exam.
#[derive(Debug, Clone, PartialEq, Eq, Ord, PartialOrd, Hash)]
pub struct ExamScore {
    pub exam: String,
    pub score: u32,
}

/// An atomic requirement: a course taken, or a score reached on an exam.
#[derive(Debug, Clone, PartialEq, Eq, Ord, PartialOrd, Hash)]
pub enum Qualification {
    Course(CourseCode),
    ExamScore(ExamScore),
}

/// What a qualification is, as plain values.
pub enum QualificationView {
    Course(Seq<char>, Seq<char>),
    ExamScore(Seq<char>, u32),
}

impl View for Qualification {
    type V = QualificationView;

    open spec fn view(&self) -> QualificationView {
        match self {
            Qualification::Course(c) => QualificationView::Course(c.subject@, c.number@),
            Qualification::ExamScore(e) => QualificationView::ExamScore(e.exam@, e.score),
        }
    }
}

/// How the children of a requirement combine.
#[derive(Debug, Clone, Copy, PartialEq, Eq, PartialOrd, Ord, Hash)]
pub enum Operator {
    Any,
    All,
}

/// A requirement: a single qualification, or an operator over child requirements.
#[derive(Debug)]
pub enum PrerequisiteTree {
    Qualification(Qualification),
    Operator(Operator, Vec<PrerequisiteTree>),
}

impl CourseCode {
    pub fn new(subject: String, number: String) -> (r: Result<CourseCode, ()>)
        ensures
            r matches Ok(c) && c.subject@ == subject@ && c.number@ == number@,
    {
        Ok(CourseCode { subject, number })
    }

    /// Reads "SUBJECT NUMBER": exactly two pieces around one space.
    pub fn try_from(string: &str) -> (r: Result<CourseCode, ()>)
        ensures
            match r {
                Ok(c) => space_split(string@).len() == 2 && c.subject@ == space_split(string@)[0] && c.number@ == space_split(string@)[1],
                Err(_) => space_split(string@).len() != 2,
            },
    {
        let cs = crate::process::chars_of(string);
        let mut pieces: Vec<Vec<char>> = vec![Vec::new()];
        let mut i: usize = 0;
        while i < cs.len()
            invariant
                i <= cs@.len(),
                pieces@.len() > 0,
                pieces@.len() == space_split(cs@.take(i as int)).len(),
                pieces@.len() <= i + 1,
                forall|k: int| 0 <= k < pieces@.len() ==> (#[trigger] pieces@[k])@ == space_split(cs@.take(i as int))[k],
            decreases cs@.len() - i,
        {
            let c = cs[i];
            let ghost before = pieces@;
            proof {
                assert(cs@.take(i as int + 1).drop_last() =~= cs@.take(i as int));
                lemma_space_split_nonempty(cs@.take(i as int));
            }
            if c == ' ' {
                pieces.push(Vec::new());
                proof {
                    assert forall|k: int| 0 <= k < pieces@.len() implies (#[trigger] pieces@[k])@ == space_split(cs@.take(i as int + 1))[k] by {
                        if k < before.len() {
                            assert(pieces@[k] == before[k]);
                        }
                    }
                }
            } else {
                let last = pieces.len() - 1;
                let mut piece: Vec<char> = Vec::new();
                pieces.set_and_swap(last, &mut piece);
                piece.push(c);
                pieces.set_and_swap(last, &mut piece);
                proof {
                    assert forall|k: int| 0 <= k < pieces@.len() implies (#[trigger] pieces@[k])@ == space_split(cs@.take(i as int + 1))[k] by {
                        if k < last {
                            assert(pieces@[k] == before[k]);
                        }
                    }
                }
            }
            i = i + 1;
        }
        assert(cs@.take(cs@.len() as int) =~= cs@);
        if pieces.len() != 2 {
            return Err(());
        }
        let subject = string_of(&pieces[0]);
        let number = string_of(&pieces[1]);
        Ok(CourseCode { subject, number })
    }

    pub fn subject(&self) -> (r: &str)
        ensures
            r@ == self.subject@,
    {
        self.subject.as_str()
    }

    /// The code as written: subject, a space, number.
    pub fn to_string(&self) -> (r: String)
        ensures
            r@ == self.subject@ + seq![' '] + self.number@,
    {
        let mut r = String::new();
        push_all(&mut r, self.subject.as_str());
        push_all(&mut r, " ");
        push_all(&mut r, self.number.as_str());
        proof {
            reveal_strlit(" ");
        }
        r
    }
}

/// The pieces of a text between its spaces.
pub open spec fn space_split(cs: Seq<char>) -> Seq<Seq<char>>
    decreases cs.len(),
{
    if cs.len() == 0 {
        seq![Seq::empty()]
    } else {
        let rest = space_split(cs.drop_last());
        if cs.last() == ' ' {
            rest.push(Seq::empty())
        } else {
            rest.update(rest.len() - 1, rest.last().push(cs.last()))
        }
    }
}

pub proof fn lemma_space_split_nonempty(cs: Seq<char>)
    ensures
        space_split(cs).len() > 0,
    decreases cs.len(),
{
    if cs.len() > 0 {
        lemma_space_split_nonempty(cs.drop_last());
    }
}

/// Relies on `FromIterator<char> for String`: the string of the given characters.
#[verifier::external_body]
pub(crate) fn string_of(cs: &Vec<char>) -> (r: String)
    ensures
        r@ == cs@,
{
    cs.iter().collect()
}

/// Relies on `String::push_str`: the characters of `t` are appended to `s`.
#[verifier::external_body]
pub(crate) fn push_all(s: &mut String, t: &str)
    ensures
        final(s)@ == old(s)@ + t@,
{
    s.push_str(t);
}

/// The decimal text of a number, without leading zeros.
pub open spec fn number_text(n: nat) -> Seq<char>
    decreases n,
{
    if n < 10 {
        seq![(('0' as u16) + n as u16) as char]
    } else {
        number_text(n / 10) + seq![(('0' as u16) + (n % 10) as u16) as char]
    }
}

/// The decimal text of a number.
pub fn u32_text(n: u32) -> (r: String)
    ensures
        r@ == number_text(n as nat),
    decreases n,
{
    if n < 10 {
        let mut r = String::new();
        push_all(&mut r, crate::process::digit(n as u16));
        assert(r@ =~= number_text(n as nat));
        r
    } else {
        let mut r = u32_text(n / 10);
        push_all(&mut r, crate::process::digit((n % 10) as u16));
        assert(r@ =~= number_text(n as nat));
        r
    }
}

impl Operator {
    /// The operator's name: "any" or "all".
    pub fn to_string(&self) -> (r: String)
        ensures
            r@ == match self {
                Operator::Any => "any"@,
                Operator::All => "all"@,
            },
    {
        let mut r = String::new();
        let text = match self {
            Operator::Any => "any",
            Operator::All => "all",
        };
        push_all(&mut r, text);
        assert(r@ =~= text@);
        r
    }
}

impl ExamScore {
    /// The exam and score as "EXAM on 'SCORE'".
    pub fn to_string(&self) -> (r: String)
        ensures
            r@ == self.exam@ + " on '"@ + number_text(self.score as nat) + "'"@,
    {
        let mut r = String::new();
        push_all(&mut r, self.exam.as_str());
        push_all(&mut r, " on '");
        let score = u32_text(self.score);
        push_all(&mut r, score.as_str());
        push_all(&mut r, "'");
        r
    }
}

impl Qualification {
    /// The text of the qualification: a course code, or an exam and score.
    pub fn to_string(&self) -> (r: String)
        ensures
            r@ == match self {
                Qualification::Course(c) => c.subject@ + seq![' '] + c.number@,
                Qualification::ExamScore(e) => e.exam@ + " on '"@ + number_text(e.score as nat) + "'"@,
            },
    {
        match self {
            Qualification::Course(c) => c.to_string(),
            Qualification::ExamScore(e) => e.to_string(),
        }
    }

    /// The score of an exam qualification, by which scores on one exam compare; a
    /// course has none.
    pub fn rank(&self) -> (r: Option<u32>)
        ensures
            r == match self {
                Qualification::Course(_) => None,
                Qualification::ExamScore(e) => Some(e.score),
            },
    {
        match self {
            Qualification::Course(_) => None,
            Qualification::ExamScore(e) => Some(e.score),
        }
    }

    /// True when both name the same qualification.
    pub fn same(&self, other: &Qualification) -> (r: bool)
        ensures
            r == (self@ == other@),
    {
        match (self, other) {
            (Qualification::Course(a), Qualification::Course(b)) => {
                let s = a.subject == b.subject;
                let n = a.number == b.number;
                s && n
            },
            (Qualification::ExamScore(a), Qualification::ExamScore(b)) => {
                let e = a.exam == b.exam;
                e && a.score == b.score
            },
            _ => false,
        }
    }
}

impl PrerequisiteTree {
    pub fn symbol(symbol: Qualification) -> (r: PrerequisiteTree)
        ensures
            r == PrerequisiteTree::Qualification(symbol),
    {
        PrerequisiteTree::Qualification(symbol)
    }

    pub fn all(trees: Vec<PrerequisiteTree>) -> (r: PrerequisiteTree)
        ensures
            r == PrerequisiteTree::Operator(Operator::All, trees),
    {
        PrerequisiteTree::Operator(Operator::All, trees)
    }

    pub fn any(trees: Vec<PrerequisiteTree>) -> (r: PrerequisiteTree)
        ensures
            r == PrerequisiteTree::Operator(Operator::Any, trees),
    {
        PrerequisiteTree::Operator(Operator::Any, trees)
    }
}

} // verus!
