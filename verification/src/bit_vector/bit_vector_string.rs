//! Validated text form of a bit vector: a string of `'0'` and `'1'`.

use vstd::prelude::*;
use vstd::string::StringExecFns;

verus! {

/// Whether `s` can be read as a bit vector: it holds only `'0'`, `'1'` and
/// the separator `'_'`, and at least one `'0'` or `'1'`.
pub open spec fn valid_pattern(s: Seq<char>) -> bool {
    &&& forall|i: int| 0 <= i < s.len() ==> s[i] == '0' || s[i] == '1' || s[i] == '_'
    &&& exists|i: int| 0 <= i < s.len() && s[i] != '_'
}

/// `s` without its separators.
pub open spec fn strip_separators(s: Seq<char>) -> Seq<char> {
    s.filter(|c: char| c != '_')
}

/// Validated string representation of a bit vector; character `i` is bit `i`.
pub struct BitVectorString {
    s: String,
}

impl View for BitVectorString {
    type V = Seq<char>;

    closed spec fn view(&self) -> Seq<char> {
        self.s@
    }
}

impl BitVectorString {
    /// The representation invariant: not empty, and made of `'0'` and `'1'`.
    pub open spec fn wf(&self) -> bool {
        &&& self@.len() >= 1
        &&& forall|i: int| 0 <= i < self@.len() ==> self@[i] == '0' || self@[i] == '1'
    }

    /// The bits that the string spells: bit `i` is set where character `i`
    /// is `'1'`.
    pub open spec fn bits(&self) -> Seq<bool> {
        Seq::new(self@.len(), |i: int| self@[i] == '1')
    }

    /// Reads `s` as a bit vector: `'0'` is 0, `'1'` is 1, `'_'` is skipped.
    pub fn new(s: &str) -> (r: BitVectorString)
        requires
            valid_pattern(s@),
        ensures
            r.wf(),
            r@ == strip_separators(s@),
    {
        let ghost keep = |c: char| c != '_';
        let mut parsed: String = String::new();
        proof {
            reveal(Seq::filter);
            reveal_strlit("0");
            reveal_strlit("1");
            assert(s@.take(0) =~= Seq::<char>::empty());
        }
        for c in it: s.chars()
            invariant
                it.seq() == s@,
                valid_pattern(s@),
                keep == |c: char| c != '_',
                "0"@ == seq!['0'],
                "1"@ == seq!['1'],
                parsed@ == s@.take(it.index() as int).filter(keep),
                it.index() == s@.len() ==> parsed@ == s@.filter(keep),
                forall|i: int| 0 <= i < parsed@.len() ==> parsed@[i] == '0' || parsed@[i] == '1',
                forall|i: int|
                    0 <= i < it.index() && s@[i] != '_' ==> parsed@.len() >= 1,
        {
            proof {
                reveal(Seq::filter);
                let i = it.index() as int;
                assert(s@.take(i + 1).drop_last() =~= s@.take(i));
                assert(s@.take(i + 1).last() == c);
                if i + 1 == s@.len() {
                    assert(s@.take(i + 1) =~= s@);
                }
            }
            if c == '0' {
                parsed.append("0");
                assert(parsed@ =~= s@.take(it.index() as int).filter(keep).push('0'));
            } else if c == '1' {
                parsed.append("1");
                assert(parsed@ =~= s@.take(it.index() as int).filter(keep).push('1'));
            }
        }
        BitVectorString { s: parsed }
    }

    /// Tells whether `s` can be read as a bit vector.
    pub fn is_valid(s: &str) -> (b: bool)
        ensures
            b == valid_pattern(s@),
    {
        let mut only_known: bool = true;
        let mut any_bit: bool = false;
        for c in it: s.chars()
            invariant
                it.seq() == s@,
                only_known == (forall|i: int|
                    0 <= i < it.index() ==> s@[i] == '0' || s@[i] == '1' || s@[i] == '_'),
                any_bit == (exists|i: int| 0 <= i < it.index() && (s@[i] == '0' || s@[i] == '1')),
        {
            if c == '0' || c == '1' {
                any_bit = true;
            } else if c != '_' {
                only_known = false;
            }
        }
        only_known && any_bit
    }

    /// Reads `s` as a bit vector where it can be read as one, and returns
    /// `None` where it cannot.
    pub fn try_new(s: &str) -> (r: Option<BitVectorString>)
        ensures
            r is Some <==> valid_pattern(s@),
            r matches Some(p) ==> p.wf() && p@ == strip_separators(s@),
    {
        if BitVectorString::is_valid(s) {
            Some(BitVectorString::new(s))
        } else {
            None
        }
    }

    /// Returns the validated string.
    pub fn str(&self) -> (r: &str)
        ensures
            r@ == self@,
    {
        self.s.as_str()
    }
}

} // verus!
