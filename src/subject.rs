use vstd::prelude::*;
use crate::process::chars_of;
use crate::restrictions::push_all;

verus! {

/// True when the two strings hold the same characters.
pub fn same_text(s: &str, t: &str) -> (r: bool)
    ensures
        r == (s@ == t@),
{
    let a = chars_of(s);
    let b = chars_of(t);
    if a.len() != b.len() {
        return false;
    }
    let mut i: usize = 0;
    while i < a.len()
        invariant
            i <= a@.len(),
            a@ == s@,
            b@ == t@,
            a@.len() == b@.len(),
            forall|k: int| 0 <= k < i ==> a@[k] == b@[k],
        decreases a@.len() - i,
    {
        if a[i] != b[i] {
            assert(a@[i as int] != b@[i as int]);
            return false;
        }
        i = i + 1;
    }
    assert(a@ =~= b@);
    true
}

/// Some entry from position `lo` on is for the subject `c`.
pub open spec fn names_from(s: Seq<(Subject, SubjectInfo)>, lo: int, c: Seq<char>) -> bool {
    exists|m: int| lo <= m < s.len() && s[m].0.inner@ == c
}

/// A subject code, as "MATH".
#[derive(Clone, PartialEq, Eq, PartialOrd, Ord, Hash, Debug)]
pub struct Subject {
    pub inner: String,
}

impl Subject {
    pub fn from_str(string: &str) -> (r: Subject)
        ensures
            r.inner@ == string@,
    {
        let mut inner = String::new();
        push_all(&mut inner, string);
        Subject { inner }
    }

    pub fn to_string(&self) -> (r: String)
        ensures
            r@ == self.inner@,
    {
        self.inner.clone()
    }
}

/// The kind of field a subject belongs to.
#[derive(Copy, Clone, PartialEq, Eq, Hash, Debug)]
pub enum SubjectCategory {
    Language,
    Culture,
    AbstractScience,
    PhysicalScience,
    Other,
}

impl SubjectCategory {
    /// Reads a category from its lower-case name.
    pub fn from_str(string: &str) -> (r: Result<SubjectCategory, ()>)
        ensures
            string@ == "language"@ <==> r == Ok::<SubjectCategory, ()>(SubjectCategory::Language),
            string@ == "culture"@ <==> r == Ok::<SubjectCategory, ()>(SubjectCategory::Culture),
            string@ == "abstract science"@ <==> r == Ok::<SubjectCategory, ()>(SubjectCategory::AbstractScience),
            string@ == "physical science"@ <==> r == Ok::<SubjectCategory, ()>(SubjectCategory::PhysicalScience),
            string@ == "other"@ <==> r == Ok::<SubjectCategory, ()>(SubjectCategory::Other),
    {
        proof {
            reveal_strlit("language");
            reveal_strlit("culture");
            reveal_strlit("abstract science");
            reveal_strlit("physical science");
            reveal_strlit("other");
            assert("language"@.len() != "culture"@.len());
            assert("language"@.len() != "other"@.len());
            assert("culture"@.len() != "other"@.len());
            assert("abstract science"@ != "physical science"@) by {
                assert("abstract science"@[0] != "physical science"@[0]);
            }
        }
        if same_text(string, "language") {
            Ok(SubjectCategory::Language)
        } else if same_text(string, "culture") {
            Ok(SubjectCategory::Culture)
        } else if same_text(string, "abstract science") {
            Ok(SubjectCategory::AbstractScience)
        } else if same_text(string, "physical science") {
            Ok(SubjectCategory::PhysicalScience)
        } else if same_text(string, "other") {
            Ok(SubjectCategory::Other)
        } else {
            Err(())
        }
    }

    /// The name of the category as shown to readers.
    pub fn to_string(&self) -> (r: String)
        ensures
            r@ == match self {
                SubjectCategory::Language => "Language"@,
                SubjectCategory::Culture => "Culture"@,
                SubjectCategory::AbstractScience => "abstract science"@,
                SubjectCategory::PhysicalScience => "Physical Science"@,
                SubjectCategory::Other => "Other"@,
            },
    {
        let mut r = String::new();
        let text = match self {
            SubjectCategory::Language => "Language",
            SubjectCategory::Culture => "Culture",
            SubjectCategory::AbstractScience => "abstract science",
            SubjectCategory::PhysicalScience => "Physical Science",
            SubjectCategory::Other => "Other",
        };
        push_all(&mut r, text);
        assert(r@ =~= text@);
        r
    }
}

/// What is known of a subject.
#[derive(Debug)]
pub struct SubjectInfo {
    pub name: String,
    pub category: SubjectCategory,
    pub color: String,
}

/// The subjects of the catalog with what is known of each; no subject twice.
#[derive(Debug)]
pub struct Subjects {
    pub info: Vec<(Subject, SubjectInfo)>,
}

impl Subjects {
    pub open spec fn wf(&self) -> bool {
        forall|i: int, j: int| 0 <= i < j < self.info@.len() ==> self.info@[i].0.inner@ != self.info@[j].0.inner@
    }

    /// True when the subject is listed.
    pub open spec fn has_subject(&self, code: Seq<char>) -> bool {
        exists|i: int| 0 <= i < self.info@.len() && self.info@[i].0.inner@ == code
    }

    /// The subjects with their information; of two entries for one subject the later
    /// one is kept.
    pub fn from_entries(entries: Vec<(Subject, SubjectInfo)>) -> (r: Subjects)
        ensures
            r.wf(),
            forall|c: Seq<char>| #[trigger] r.has_subject(c) <==> names_from(entries@, 0, c),
    {
        let ghost given = entries@;
        let mut kept: Vec<(Subject, SubjectInfo)> = Vec::new();
        let mut rest = entries;
        let ghost orig = rest@;
        let mut i: usize = rest.len();
        while i > 0
            invariant
                i <= orig.len(),
                rest.len() == i,
                rest@ == orig.take(i as int),
                forall|a: int, b: int| 0 <= a < b < kept@.len() ==> kept@[a].0.inner@ != kept@[b].0.inner@,
                forall|c: Seq<char>| #[trigger] names_from(kept@, 0, c) == names_from(orig, i as int, c),
            decreases i,
        {
            let entry = rest.pop().unwrap();
            i = i - 1;
            proof {
                assert(orig.take(i as int + 1).last() == orig[i as int]);
            }
            let mut found = false;
            let mut k: usize = 0;
            while k < kept.len()
                invariant
                    k <= kept.len(),
                    !found ==> forall|m: int| 0 <= m < k ==> kept@[m].0.inner@ != entry.0.inner@,
                    found ==> exists|m: int| 0 <= m < kept@.len() && kept@[m].0.inner@ == entry.0.inner@,
                decreases kept.len() - k,
            {
                if same_text(kept[k].0.inner.as_str(), entry.0.inner.as_str()) {
                    found = true;
                }
                k = k + 1;
            }
            let ghost old_kept = kept@;
            proof {
                assert(entry == orig[i as int]);
            }
            if !found {
                kept.push(entry);
            }
            proof {
                assert forall|c: Seq<char>| #[trigger] names_from(kept@, 0, c) == names_from(orig, i as int, c) by {
                    assert(names_from(old_kept, 0, c) == names_from(orig, i as int + 1, c));
                    if names_from(kept@, 0, c) {
                        let k = choose|k: int| 0 <= k < kept@.len() && kept@[k].0.inner@ == c;
                        if k < old_kept.len() {
                            assert(old_kept[k] == kept@[k]);
                            assert(names_from(old_kept, 0, c));
                            let m = choose|m: int| i + 1 <= m < orig.len() && orig[m].0.inner@ == c;
                            assert(names_from(orig, i as int, c));
                        } else {
                            assert(orig[i as int].0.inner@ == c);
                            assert(names_from(orig, i as int, c));
                        }
                    }
                    if names_from(orig, i as int, c) {
                        let m = choose|m: int| i <= m < orig.len() && orig[m].0.inner@ == c;
                        if m > i {
                            assert(names_from(orig, i as int + 1, c));
                            let k = choose|k: int| 0 <= k < old_kept.len() && old_kept[k].0.inner@ == c;
                            assert(kept@[k] == old_kept[k]);
                            assert(names_from(kept@, 0, c));
                        } else if !found {
                            assert(kept@[old_kept.len() as int].0.inner@ == c);
                            assert(names_from(kept@, 0, c));
                        } else {
                            let k = choose|k: int| 0 <= k < kept@.len() && kept@[k].0.inner@ == entry.0.inner@;
                            assert(names_from(kept@, 0, c));
                        }
                    }
                }
                assert forall|a: int, b: int| 0 <= a < b < kept@.len() implies kept@[a].0.inner@ != kept@[b].0.inner@ by {
                    if b == old_kept.len() {
                        assert(kept@[a] == old_kept[a]);
                    } else {
                        assert(kept@[a] == old_kept[a]);
                        assert(kept@[b] == old_kept[b]);
                    }
                }
            }
        }
        let ghost kv = kept@;
        let r = Subjects { info: kept };
        proof {
            assert forall|c: Seq<char>| #[trigger] r.has_subject(c) <==> names_from(orig, 0, c) by {
                assert(names_from(kv, 0, c) == names_from(orig, 0, c));
                if r.has_subject(c) {
                    let k = choose|k: int| 0 <= k < r.info@.len() && r.info@[k].0.inner@ == c;
                    assert(kv[k].0.inner@ == c);
                }
                if names_from(kv, 0, c) {
                    let k = choose|k: int| 0 <= k < kv.len() && kv[k].0.inner@ == c;
                    assert(r.info@[k].0.inner@ == c);
                }
            }
        }
        r
    }

    /// The position of a subject.
    fn position(&self, code: &Subject) -> (r: usize)
        requires
            self.has_subject(code.inner@),
        ensures
            r < self.info@.len(),
            self.info@[r as int].0.inner@ == code.inner@,
    {
        let mut i: usize = 0;
        while i < self.info.len()
            invariant
                i <= self.info@.len(),
                self.has_subject(code.inner@),
                forall|k: int| 0 <= k < i ==> self.info@[k].0.inner@ != code.inner@,
            decreases self.info@.len() - i,
        {
            if same_text(self.info[i].0.inner.as_str(), code.inner.as_str()) {
                return i;
            }
            i = i + 1;
        }
        proof {
            let k = choose|k: int| 0 <= k < self.info@.len() && self.info@[k].0.inner@ == code.inner@;
            assert(false);
        }
        0
    }

    /// The subjects, in the order kept.
    pub fn iter(&self) -> (r: Vec<Subject>)
        ensures
            r@.len() == self.info@.len(),
            forall|i: int| 0 <= i < r@.len() ==> (#[trigger] r@[i]).inner@ == self.info@[i].0.inner@,
    {
        let mut out: Vec<Subject> = Vec::new();
        let mut i: usize = 0;
        while i < self.info.len()
            invariant
                i <= self.info@.len(),
                out@.len() == i,
                forall|k: int| 0 <= k < i ==> (#[trigger] out@[k]).inner@ == self.info@[k].0.inner@,
            decreases self.info@.len() - i,
        {
            out.push(Subject { inner: self.info[i].0.inner.clone() });
            i = i + 1;
        }
        out
    }

    /// The full name of a listed subject.
    pub fn name(&self, code: &Subject) -> (r: &str)
        requires
            self.has_subject(code.inner@),
        ensures
            exists|i: int| 0 <= i < self.info@.len() && self.info@[i].0.inner@ == code.inner@ && r@ == self.info@[i].1.name@,
    {
        let i = self.position(code);
        self.info[i].1.name.as_str()
    }

    /// The category of a listed subject.
    pub fn category(&self, code: &Subject) -> (r: SubjectCategory)
        requires
            self.has_subject(code.inner@),
        ensures
            exists|i: int| 0 <= i < self.info@.len() && self.info@[i].0.inner@ == code.inner@ && r == self.info@[i].1.category,
    {
        let i = self.position(code);
        self.info[i].1.category
    }

    /// The color of a listed subject.
    pub fn color(&self, code: &Subject) -> (r: &str)
        requires
            self.has_subject(code.inner@),
        ensures
            exists|i: int| 0 <= i < self.info@.len() && self.info@[i].0.inner@ == code.inner@ && r@ == self.info@[i].1.color@,
    {
        let i = self.position(code);
        self.info[i].1.color.as_str()
    }
}

} // verus!
