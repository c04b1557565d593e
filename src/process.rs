use vstd::prelude::*;
use crate::restrictions::{CourseCode, PrerequisiteTree, push_all};
use vstd::std_specs::iter::IteratorSpec;
use vstd::string::StringSliceAdditionalSpecFns;

verus! {

broadcast use vstd::string::next_postcondition, vstd::string::axiom_spec_iter;

/// The characters of a string, in order.
pub fn chars_of(s: &str) -> (r: Vec<char>)
    ensures
        r@ == s@,
{
    let mut out: Vec<char> = Vec::new();
    let mut it = s.chars();
    loop
        invariant
            it.obeys_prophetic_iter_laws(),
            it.decrease() is Some,
            out@ + it.remaining() == s@,
        ensures
            out@ == s@,
        decreases it.decrease()->0,
    {
        match it.next() {
            Some(c) => {
                out.push(c);
                proof {
                    assert(out@ + it.remaining() =~= s@);
                }
            },
            None => {
                assert(out@ =~= s@);
                break;
            },
        }
    }
    out
}

/// The value of a sequence of decimal digits.
pub open spec fn decimal(cs: Seq<char>) -> nat
    decreases cs.len(),
{
    if cs.len() == 0 {
        0
    } else {
        decimal(cs.drop_last()) * 10 + (cs.last() as nat - '0' as nat) as nat
    }
}

pub open spec fn is_digit(c: char) -> bool {
    '0' <= c && c <= '9'
}

/// The semester a text names, counted from zero: "GM" and "GP" are the fourteenth
/// and fifteenth, "F2" the second, and a number `n` from 1 to 16 is the `n`th.
pub open spec fn semester_of(cs: Seq<char>) -> Option<u16> {
    if cs == seq!['G', 'M'] {
        Some(13)
    } else if cs == seq!['G', 'P'] {
        Some(14)
    } else if cs == seq!['F', '2'] {
        Some(1)
    } else if cs.len() > 0 && (forall|i: int| 0 <= i < cs.len() ==> is_digit(#[trigger] cs[i])) && 1 <= decimal(cs) <= 16 {
        Some((decimal(cs) - 1) as u16)
    } else {
        None
    }
}

/// The text of a semester: "GM" and "GP" for the fourteenth and fifteenth, else its
/// number from one, in at least two digits.
pub open spec fn semester_text(s: u16) -> Seq<char> {
    if s == 13 {
        seq!['G', 'M']
    } else if s == 14 {
        seq!['G', 'P']
    } else if s + 1 < 10 {
        seq!['0', (('0' as u16) + s + 1) as char]
    } else {
        crate::restrictions::number_text(s as nat + 1)
    }
}

/// True when the set of semesters holds semester `i`.
pub open spec fn holds_bit(bits: u16, i: u16) -> bool {
    bits & (1u16 << i) != 0
}

/// The semesters below `n` of a set, in increasing order.
pub open spec fn listed(bits: u16, n: nat) -> Seq<u16>
    decreases n,
{
    if n == 0 {
        Seq::empty()
    } else {
        let rest = listed(bits, (n - 1) as nat);
        if holds_bit(bits, (n - 1) as u16) {
            rest.push((n - 1) as u16)
        } else {
            rest
        }
    }
}

/// The texts of semesters, separated by ", ".
pub open spec fn joined(ss: Seq<u16>) -> Seq<char>
    decreases ss.len(),
{
    if ss.len() == 0 {
        Seq::empty()
    } else if ss.len() == 1 {
        semester_text(ss[0])
    } else {
        joined(ss.drop_last()) + seq![',', ' '] + semester_text(ss.last())
    }
}

/// One semester, counted from zero.
#[derive(Debug, Clone, Copy, PartialEq, Eq)]
pub struct Semester {
    pub inner: u16,
}

impl Semester {
    /// Reads a semester from its text.
    pub fn from_str(string: &str) -> (r: Result<Semester, ()>)
        ensures
            match r {
                Ok(s) => semester_of(string@) == Some(s.inner),
                Err(_) => semester_of(string@) is None,
            },
    {
        let cs = chars_of(string);
        if cs.len() == 2 && cs[0] == 'G' && cs[1] == 'M' {
            assert(cs@ =~= seq!['G', 'M']);
            return Ok(Semester { inner: 13 });
        }
        if cs.len() == 2 && cs[0] == 'G' && cs[1] == 'P' {
            assert(cs@ =~= seq!['G', 'P']);
            return Ok(Semester { inner: 14 });
        }
        if cs.len() == 2 && cs[0] == 'F' && cs[1] == '2' {
            assert(cs@ =~= seq!['F', '2']);
            return Ok(Semester { inner: 1 });
        }
        if cs.len() == 0 {
            return Err(());
        }
        proof {
            if cs@ == seq!['G', 'M'] || cs@ == seq!['G', 'P'] || cs@ == seq!['F', '2'] {
                assert(cs@.len() == 2);
                assert(cs@[0] == seq!['G', 'M'][0] || cs@[0] == seq!['F', '2'][0]);
            }
        }
        let mut v: u16 = 0;
        let mut i: usize = 0;
        while i < cs.len()
            invariant
                i <= cs@.len(),
                cs@ == string@,
                cs@ != seq!['G', 'M'] && cs@ != seq!['G', 'P'] && cs@ != seq!['F', '2'],
                cs@.len() > 0,
                forall|k: int| 0 <= k < i ==> is_digit(#[trigger] cs@[k]),
                v as nat == if decimal(cs@.take(i as int)) > 17 { 17 } else { decimal(cs@.take(i as int)) },
            decreases cs@.len() - i,
        {
            let c = cs[i];
            if !('0' <= c && c <= '9') {
                assert(!is_digit(cs@[i as int]));
                return Err(());
            }
            let d = (c as u32 - '0' as u32) as u16;
            proof {
                let p = cs@.take(i as int);
                assert(cs@.take(i as int + 1).drop_last() =~= p);
                let dp = decimal(p);
                if dp > 17 {
                    assert(dp * 10 >= 170) by (nonlinear_arith)
                        requires dp > 17;
                }
            }
            v = if v >= 17 { 17 } else if v * 10 + d > 17 { 17 } else { v * 10 + d };
            i = i + 1;
        }
        assert(cs@.take(cs@.len() as int) =~= cs@);
        if v == 0 || v > 16 {
            Err(())
        } else {
            Ok(Semester { inner: v - 1 })
        }
    }

    /// The text of the semester.
    pub fn to_string(&self) -> (r: String)
        ensures
            r@ == semester_text(self.inner),
    {
        let mut r = String::new();
        if self.inner == 13 {
            push_all(&mut r, "GM");
            proof {
                reveal_strlit("GM");
                assert(r@ =~= seq!['G', 'M']);
            }
        } else if self.inner == 14 {
            push_all(&mut r, "GP");
            proof {
                reveal_strlit("GP");
                assert(r@ =~= seq!['G', 'P']);
            }
        } else {
            let n: u32 = self.inner as u32 + 1;
            if n < 10 {
                push_all(&mut r, "0");
                push_all(&mut r, digit(n as u16));
                proof {
                    reveal_strlit("0");
                }
            } else {
                let text = crate::restrictions::u32_text(n);
                push_all(&mut r, text.as_str());
            }
            assert(r@ =~= semester_text(self.inner));
        }
        r
    }
}

/// The text of one decimal digit.
pub fn digit(d: u16) -> (r: &'static str)
    requires
        d < 10,
    ensures
        r@ == seq![(('0' as u16) + d) as char],
{
    proof {
        reveal_strlit("0");
        reveal_strlit("1");
        reveal_strlit("2");
        reveal_strlit("3");
        reveal_strlit("4");
        reveal_strlit("5");
        reveal_strlit("6");
        reveal_strlit("7");
        reveal_strlit("8");
        reveal_strlit("9");
    }
    match d {
        0 => "0",
        1 => "1",
        2 => "2",
        3 => "3",
        4 => "4",
        5 => "5",
        6 => "6",
        7 => "7",
        8 => "8",
        _ => "9",
    }
}

/// The bits of the fifteen semesters of a full range.
pub const FULL_BITS: u16 = 0x7fff;

/// A set of semesters, one bit each.
#[derive(Debug, Clone, Copy, PartialEq, Eq)]
pub struct SemesterRange {
    pub inner: u16,
}

impl SemesterRange {
    /// Every semester.
    pub fn full() -> (r: SemesterRange)
        ensures
            r.inner == FULL_BITS,
    {
        SemesterRange { inner: FULL_BITS }
    }

    /// No semester.
    pub fn empty() -> (r: SemesterRange)
        ensures
            r.inner == 0,
    {
        SemesterRange { inner: 0 }
    }

    /// The first eight semesters.
    pub fn undergraduate() -> (r: SemesterRange)
        ensures
            r.inner == 0xff,
    {
        SemesterRange { inner: 0xff }
    }

    /// The semesters after the first eight.
    pub fn graduate() -> (r: SemesterRange)
        ensures
            r.inner == FULL_BITS ^ 0xff,
    {
        SemesterRange { inner: FULL_BITS ^ 0xff }
    }

    /// The semesters below `semester`.
    pub fn to(semester: u16) -> (r: SemesterRange)
        requires
            semester < 16,
        ensures
            forall|i: u16| i < 16 ==> (holds_bit(r.inner, i) <==> i < semester),
    {
        let p: u32 = 1u32 << semester;
        assert(1 <= p && p <= 0x8000) by (bit_vector)
            requires
                semester < 16,
                p == 1u32 << semester;
        let bits: u16 = (p - 1) as u16;
        assert(forall|i: u16| i < 16 ==> (bits & (1u16 << i) != 0 <==> i < semester)) by (bit_vector)
            requires
                semester < 16,
                p == 1u32 << semester,
                bits == (p - 1) as u16;
        SemesterRange { inner: bits }
    }

    /// True when every semester is in the range.
    pub fn is_full(&self) -> (r: bool)
        ensures
            r == (self.inner == FULL_BITS),
    {
        self.inner == 0x7fff
    }

    /// The range with one more semester.
    pub fn add(self, semester: Semester) -> (r: SemesterRange)
        requires
            semester.inner < 16,
        ensures
            forall|i: u16| i < 16 ==> (holds_bit(r.inner, i) <==> holds_bit(self.inner, i) || i == semester.inner),
    {
        let a = self.inner;
        let s = semester.inner;
        let bits: u16 = a | (1u16 << s);
        assert(forall|i: u16| i < 16 ==> (bits & (1u16 << i) != 0 <==> a & (1u16 << i) != 0 || i == s)) by (bit_vector)
            requires
                s < 16,
                bits == a | (1u16 << s);
        SemesterRange { inner: bits }
    }

    /// The semesters of the full range that are not in this one.
    pub fn complement(self) -> (r: SemesterRange)
        ensures
            forall|i: u16| i < 15 ==> (holds_bit(r.inner, i) <==> !holds_bit(self.inner, i)),
            holds_bit(r.inner, 15) == holds_bit(self.inner, 15),
    {
        let a = self.inner;
        let bits: u16 = a ^ 0x7fff;
        assert(forall|i: u16| i < 15 ==> (bits & (1u16 << i) != 0 <==> !(a & (1u16 << i) != 0))) by (bit_vector)
            requires
                bits == a ^ 0x7fff;
        assert((bits & (1u16 << 15u16) != 0) == (a & (1u16 << 15u16) != 0)) by (bit_vector)
            requires
                bits == a ^ 0x7fff;
        SemesterRange { inner: bits }
    }

    /// The semesters in both ranges.
    pub fn intersection(self, other: SemesterRange) -> (r: SemesterRange)
        ensures
            forall|i: u16| i < 16 ==> (holds_bit(r.inner, i) <==> holds_bit(self.inner, i) && holds_bit(other.inner, i)),
    {
        let a = self.inner;
        let b = other.inner;
        let bits: u16 = a & b;
        assert(forall|i: u16| i < 16 ==> (bits & (1u16 << i) != 0 <==> a & (1u16 << i) != 0 && b & (1u16 << i) != 0)) by (bit_vector)
            requires
                bits == a & b;
        SemesterRange { inner: bits }
    }

    /// The semesters of the range, in increasing order.
    pub fn semesters(self) -> (r: Vec<Semester>)
        ensures
            r@.len() == listed(self.inner, 16).len(),
            forall|k: int| 0 <= k < r@.len() ==> (#[trigger] r@[k]).inner == listed(self.inner, 16)[k],
    {
        let mut out: Vec<Semester> = Vec::new();
        let mut i: u16 = 0;
        while i < 16
            invariant
                i <= 16,
                out@.len() == listed(self.inner, i as nat).len(),
                forall|k: int| 0 <= k < out@.len() ==> (#[trigger] out@[k]).inner == listed(self.inner, i as nat)[k],
            decreases 16 - i,
        {
            let ghost old_out = out@;
            if self.inner & (1u16 << i) != 0 {
                out.push(Semester { inner: i });
                proof {
                    assert forall|k: int| 0 <= k < out@.len() implies (#[trigger] out@[k]).inner == listed(self.inner, i as nat + 1)[k] by {
                        if k < old_out.len() {
                            assert(out@[k] == old_out[k]);
                        }
                    }
                }
            }
            i = i + 1;
        }
        out
    }

    /// The range as text: its semesters in increasing order, separated by ", ".
    pub fn to_string(&self) -> (r: String)
        ensures
            r@ == joined(listed(self.inner, 16)),
    {
        let semesters = self.semesters();
        let ghost ss = listed(self.inner, 16);
        proof {
            lemma_listed_below(self.inner, 16);
        }
        let mut r = String::new();
        let mut k: usize = 0;
        while k < semesters.len()
            invariant
                k <= semesters@.len(),
                semesters@.len() == ss.len(),
                forall|m: int| 0 <= m < semesters@.len() ==> (#[trigger] semesters@[m]).inner == ss[m],
                forall|m: int| 0 <= m < ss.len() ==> #[trigger] ss[m] < 16,
                r@ == joined(ss.take(k as int)),
            decreases semesters@.len() - k,
        {
            if k > 0 {
                push_all(&mut r, ", ");
                proof {
                    reveal_strlit(", ");
                }
            }
            let text = semesters[k].to_string();
            push_all(&mut r, text.as_str());
            proof {
                let t = ss.take(k as int + 1);
                assert(t.drop_last() =~= ss.take(k as int));
                if k == 0 {
                    assert(r@ =~= joined(t));
                } else {
                    assert(r@ =~= joined(t));
                }
            }
            k = k + 1;
        }
        assert(ss.take(ss.len() as int) =~= ss);
        r
    }

    /// The range of the semesters named by the texts; `Err` when one names none.
    pub fn from_parts(parts: &Vec<String>) -> (r: Result<SemesterRange, ()>)
        ensures
            match r {
                Ok(range) => forall|k: int| 0 <= k < parts@.len() ==> (#[trigger] semester_of(parts@[k]@)) is Some
                    && forall|i: u16| i < 16 ==> (holds_bit(range.inner, i) <==> exists|k: int| 0 <= k < parts@.len() && semester_of(parts@[k]@) == Some(i)),
                Err(_) => exists|k: int| 0 <= k < parts@.len() && (#[trigger] semester_of(parts@[k]@)) is None,
            },
    {
        let mut range = SemesterRange::empty();
        let mut k: usize = 0;
        proof {
            assert(forall|i: u16| i < 16 ==> !(0u16 & (1u16 << i) != 0)) by (bit_vector);
        }
        while k < parts.len()
            invariant
                k <= parts@.len(),
                forall|m: int| 0 <= m < k ==> (#[trigger] semester_of(parts@[m]@)) is Some,
                forall|i: u16| i < 16 ==> (holds_bit(range.inner, i) <==> exists|m: int| 0 <= m < k && semester_of(parts@[m]@) == Some(i)),
            decreases parts@.len() - k,
        {
            match Semester::from_str(parts[k].as_str()) {
                Ok(s) => {
                    proof {
                        lemma_semester_below(parts@[k as int]@);
                    }
                    let ghost old_range = range;
                    range = range.add(s);
                    proof {
                        assert forall|i: u16| i < 16 implies (holds_bit(range.inner, i) <==> exists|m: int| 0 <= m < k + 1 && semester_of(parts@[m]@) == Some(i)) by {
                            if holds_bit(range.inner, i) && i != s.inner {
                                let m = choose|m: int| 0 <= m < k && semester_of(parts@[m]@) == Some(i);
                            }
                            if exists|m: int| 0 <= m < k + 1 && semester_of(parts@[m]@) == Some(i) {
                                let m = choose|m: int| 0 <= m < k + 1 && semester_of(parts@[m]@) == Some(i);
                                if m < k {
                                    assert(holds_bit(old_range.inner, i));
                                }
                            }
                        }
                    }
                },
                Err(_) => {
                    return Err(());
                },
            }
            k = k + 1;
        }
        Ok(range)
    }

    /// Reads a range from a list of semesters separated by ", " or " or ".
    pub fn try_from(string: &str) -> (r: Result<SemesterRange, ()>)
        ensures
            match r {
                Ok(range) => forall|k: int| 0 <= k < listed_parts(string@).len() ==> (#[trigger] semester_of(listed_parts(string@)[k])) is Some
                    && forall|i: u16| i < 16 ==> (holds_bit(range.inner, i) <==> exists|k: int| 0 <= k < listed_parts(string@).len() && semester_of(listed_parts(string@)[k]) == Some(i)),
                Err(_) => exists|k: int| 0 <= k < listed_parts(string@).len() && (#[trigger] semester_of(listed_parts(string@)[k])) is None,
            },
    {
        let parts = split_list(string);
        let r = SemesterRange::from_parts(&parts);
        proof {
            assert forall|k: int| 0 <= k < parts@.len() implies parts@[k]@ == listed_parts(string@)[k] by {}
        }
        r
    }
}

/// A semester read from text is below sixteen.
pub proof fn lemma_semester_below(cs: Seq<char>)
    ensures
        semester_of(cs) matches Some(s) ==> s < 16,
{
}

/// Every semester listed is below the bound.
pub proof fn lemma_listed_below(bits: u16, n: nat)
    requires
        n <= 16,
    ensures
        forall|m: int| 0 <= m < listed(bits, n).len() ==> #[trigger] listed(bits, n)[m] < n,
    decreases n,
{
    if n > 0 {
        lemma_listed_below(bits, (n - 1) as nat);
        let rest = listed(bits, (n - 1) as nat);
        assert forall|m: int| 0 <= m < listed(bits, n).len() implies #[trigger] listed(bits, n)[m] < n by {
            if m < rest.len() {
                assert(listed(bits, n)[m] == rest[m]);
            }
        }
    }
}

/// The pieces of a text cut at each ", " and each " or ", read from the left.
pub open spec fn listed_parts(cs: Seq<char>) -> Seq<Seq<char>>
    decreases cs.len(),
{
    if cs.len() == 0 {
        seq![Seq::empty()]
    } else if cs.len() >= 2 && cs[0] == ',' && cs[1] == ' ' {
        seq![Seq::<char>::empty()] + listed_parts(cs.skip(2))
    } else if cs.len() >= 4 && cs[0] == ' ' && cs[1] == 'o' && cs[2] == 'r' && cs[3] == ' ' {
        seq![Seq::<char>::empty()] + listed_parts(cs.skip(4))
    } else {
        let rest = listed_parts(cs.skip(1));
        rest.update(0, seq![cs[0]] + rest[0])
    }
}

/// Relies on `regex::Regex::split` with the pattern `, | or `: the pieces between
/// the matches, in order.
#[verifier::external_body]
fn split_list(s: &str) -> (r: Vec<String>)
    ensures
        r@.len() == listed_parts(s@).len(),
        forall|k: int| 0 <= k < r@.len() ==> (#[trigger] r@[k])@ == listed_parts(s@)[k],
{
    let delim = regex::Regex::new(", | or ").unwrap();
    delim.split(s).map(|p| p.to_string()).collect()
}

/// How many students of each year a section had.
#[derive(Debug, Clone, Copy, PartialEq, Eq)]
pub struct Demographics {
    pub freshmen: u16,
    pub sophomores: u16,
    pub juniors: u16,
    pub seniors: u16,
    pub graduates: u16,
    pub others: u16,
}

/// One section of a course in one term.
#[derive(Debug)]
pub struct Offering {
    pub date: String,
    pub section: u8,
    pub instructors: Vec<String>,
    pub enrollment: Option<u16>,
    pub demographics: Option<Demographics>,
}

/// A course of the catalog.
#[derive(Debug)]
pub struct Course {
    pub code: CourseCode,
    pub title: String,
    pub description: String,
    pub prerequisites: Option<PrerequisiteTree>,
    pub semester_range: SemesterRange,
    pub restricted: bool,
    pub aliases: Vec<CourseCode>,
    pub offerings: Vec<Offering>,
}

impl Course {
    pub fn code(&self) -> (r: &CourseCode)
        ensures
            r == &self.code,
    {
        &self.code
    }

    pub fn prerequisites(&self) -> (r: Option<&PrerequisiteTree>)
        ensures
            match r {
                Some(t) => self.prerequisites == Some(*t),
                None => self.prerequisites is None,
            },
    {
        match &self.prerequisites {
            Some(t) => Some(t),
            None => None,
        }
    }

    /// The prerequisites, to change in place.
    pub fn prerequisites_mut(&mut self) -> (r: &mut Option<PrerequisiteTree>)
        ensures
            *r == old(self).prerequisites,
            final(self).prerequisites == *final(r),
            final(self).code == old(self).code,
            final(self).semester_range == old(self).semester_range,
    {
        &mut self.prerequisites
    }

    pub fn semester_range(&self) -> (r: &SemesterRange)
        ensures
            *r == self.semester_range,
    {
        &self.semester_range
    }
}


/// Reads a flag: "Y" is yes, "N" is no.
pub fn yes_or_no(string: &str) -> (r: Option<bool>)
    ensures
        r == if string@ == "Y"@ {
            Some(true)
        } else if string@ == "N"@ {
            Some(false)
        } else {
            None::<bool>
        },
{
    proof {
        reveal_strlit("Y");
        reveal_strlit("N");
        assert("Y"@[0] != "N"@[0]);
    }
    if crate::subject::same_text(string, "Y") {
        Some(true)
    } else if crate::subject::same_text(string, "N") {
        Some(false)
    } else {
        None
    }
}

/// A byte that stands for itself in a URL.
pub open spec fn unreserved(b: u8) -> bool {
    (65 <= b <= 90) || (97 <= b <= 122) || (48 <= b <= 57) || b == 45 || b == 95 || b == 46 || b == 126
}

/// The upper-case hexadecimal digit of a value below sixteen.
pub open spec fn hex_digit(v: u8) -> char {
    if v < 10 {
        (48 + v) as char
    } else {
        (55 + v) as char
    }
}

/// The URL encoding of bytes: unreserved bytes as themselves, others as "%XY".
pub open spec fn percent_encoded(bs: Seq<u8>) -> Seq<char>
    decreases bs.len(),
{
    if bs.len() == 0 {
        Seq::empty()
    } else {
        let b = bs.last();
        percent_encoded(bs.drop_last()) + if unreserved(b) {
            seq![b as char]
        } else {
            seq!['%', hex_digit(b / 16), hex_digit(b % 16)]
        }
    }
}

/// Encodes the bytes of a text for a URL query.
pub fn percent_encode(string: &str) -> (r: String)
    ensures
        r@ == percent_encoded(string.spec_bytes()),
{
    let bytes = string.as_bytes();
    let mut out: Vec<char> = Vec::new();
    let mut i: usize = 0;
    while i < bytes.len()
        invariant
            i <= bytes@.len(),
            bytes@ == string.spec_bytes(),
            out@ == percent_encoded(bytes@.take(i as int)),
        decreases bytes@.len() - i,
    {
        let b = bytes[i];
        proof {
            assert(bytes@.take(i as int + 1).drop_last() =~= bytes@.take(i as int));
        }
        if (65 <= b && b <= 90) || (97 <= b && b <= 122) || (48 <= b && b <= 57) || b == 45 || b == 95 || b == 46 || b == 126 {
            out.push(b as char);
        } else {
            let hi = b / 16;
            let lo = b % 16;
            out.push('%');
            out.push(if hi < 10 { (48 + hi) as char } else { (55 + hi) as char });
            out.push(if lo < 10 { (48 + lo) as char } else { (55 + lo) as char });
        }
        proof {
            assert(out@ =~= percent_encoded(bytes@.take(i as int + 1)));
        }
        i = i + 1;
    }
    assert(bytes@.take(bytes@.len() as int) =~= bytes@);
    crate::restrictions::string_of(&out)
}

} // verus!
