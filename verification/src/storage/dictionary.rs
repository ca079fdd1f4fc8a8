//! Dictionary-encoded strings with a bitmap of rows per distinct value.
use roaring::RoaringBitmap;
use vstd::hash_map::StringHashMap;
use vstd::prelude::*;

use crate::bitmap;
use crate::text;

verus! {

/// Dictionary-encoded string column index.
///
/// Each distinct string has a stable `u32` code, and beside it a bitmap of
/// every row that carries the string.
pub struct StringDictionary {
    codes: StringHashMap<u32>,
    values: Vec<String>,
    postings: Vec<RoaringBitmap>,
}

/// What a dictionary holds: the distinct strings by code, and for each the rows
/// that carry it.
#[verifier::ext_equal]
pub struct Lexicon {
    pub words: Seq<Seq<char>>,
    pub postings: Seq<Set<u32>>,
}

impl Lexicon {
    pub open spec fn wf(self) -> bool {
        &&& self.words.no_duplicates()
        &&& self.words.len() == self.postings.len()
        &&& self.words.len() <= 0x1_0000_0000
    }

    pub open spec fn empty() -> Lexicon {
        Lexicon { words: Seq::empty(), postings: Seq::empty() }
    }

    /// The code of a string, if the string is known.
    pub open spec fn code(self, value: Seq<char>) -> Option<u32> {
        if self.words.contains(value) {
            Some(self.words.index_of(value) as u32)
        } else {
            None
        }
    }

    /// The lexicon once `row` is known to carry `value`.
    pub open spec fn interned(self, value: Seq<char>, row: u32) -> Lexicon {
        if self.words.contains(value) {
            let c = self.words.index_of(value);
            Lexicon { postings: self.postings.update(c, self.postings[c].insert(row)), ..self }
        } else {
            Lexicon {
                words: self.words.push(value),
                postings: self.postings.push(Set::empty().insert(row)),
            }
        }
    }

    /// Whether `row` carries the string with code `c`.
    pub open spec fn carries(self, c: int, row: u32) -> bool {
        0 <= c < self.postings.len() && self.postings[c].contains(row)
    }

    /// Whether some row carries the string with code `c`.
    pub open spec fn used(self, c: int) -> bool {
        exists|row: u32| self.carries(c, row)
    }

    /// No row carries two strings.
    pub open spec fn single(self) -> bool {
        forall|c: int, d: int, row: u32|
            #[trigger] self.carries(c, row) && #[trigger] self.carries(d, row) ==> c == d
    }

    /// The string that `row` carries, if it carries one.
    pub open spec fn at(self, row: u32) -> Option<Seq<char>> {
        if exists|c: int| self.carries(c, row) {
            Some(self.words[choose|c: int| self.carries(c, row)])
        } else {
            None
        }
    }

    /// The rows that carry a string.
    pub open spec fn carrying(self) -> Set<u32> {
        Set::new(|row: u32| self.at(row) is Some)
    }

    /// The rows that carry `value`.
    pub open spec fn rows_with(self, value: Seq<char>) -> Set<u32> {
        if self.words.contains(value) {
            self.postings[self.words.index_of(value)]
        } else {
            Set::empty()
        }
    }
}

impl StringDictionary {
    pub closed spec fn view(&self) -> Lexicon {
        Lexicon {
            words: text::texts(self.values@),
            postings: Seq::new(self.postings@.len(), |i: int| bitmap::rows_of(self.postings@[i])),
        }
    }

    /// The code table agrees with the list of strings.
    closed spec fn linked(&self) -> bool {
        let words = self.view().words;
        &&& forall|i: int|
            0 <= i < words.len() ==> self.codes@.contains_key(#[trigger] words[i])
                && self.codes@[words[i]] == i
        &&& forall|v: Seq<char>| #[trigger]
            self.codes@.contains_key(v) ==> self.codes@[v] < words.len()
                && words[self.codes@[v] as int] == v
    }

    pub closed spec fn wf(&self) -> bool {
        self@.wf() && self.linked()
    }

    /// A well-formed dictionary holds a well-formed lexicon.
    pub proof fn lemma_wf(&self)
        requires
            self.wf(),
        ensures
            self@.wf(),
    {
    }

    pub fn new() -> (r: StringDictionary)
        ensures
            r.wf(),
            r@ == Lexicon::empty(),
    {
        let r = StringDictionary {
            codes: StringHashMap::new(),
            values: Vec::new(),
            postings: Vec::new(),
        };
        assert(r@ =~= Lexicon::empty());
        r
    }

    /// Map a string and record the row it appeared in. Returns the code.
    pub fn intern(&mut self, value: &str, row: u32) -> (code: u32)
        requires
            old(self).wf(),
            old(self)@.words.contains(value@) || old(self)@.words.len() <= u32::MAX,
        ensures
            final(self).wf(),
            final(self)@ == old(self)@.interned(value@, row),
            final(self)@.code(value@) == Some(code),
    {
        let ghost before = self@;
        let known: Option<u32> = match self.codes.get(value) {
            Some(code) => Some(*code),
            None => None,
        };
        if let Some(code) = known {
            assert(before.words[code as int] == value@);
            assert(before.words.index_of(value@) == code);
            self.postings[code as usize].insert(row);
            assert(self@ =~= before.interned(value@, row));
            return code;
        }
        assert(!before.words.contains(value@));
        let code: u32 = self.values.len() as u32;
        self.codes.insert(value.to_owned(), code);
        self.values.push(value.to_owned());
        let mut bm = RoaringBitmap::new();
        bm.insert(row);
        self.postings.push(bm);
        assert(self@ =~= before.interned(value@, row));
        assert(self@.words[code as int] == value@);
        code
    }

    pub fn code_of(&self, value: &str) -> (r: Option<u32>)
        requires
            self.wf(),
        ensures
            r == self@.code(value@),
    {
        let words = Ghost(self@.words);
        match self.codes.get(value) {
            Some(code) => {
                assert(words@[*code as int] == value@);
                Some(*code)
            },
            None => None,
        }
    }

    pub fn value_of(&self, code: u32) -> (r: Option<&str>)
        requires
            self.wf(),
        ensures
            r is Some <==> code < self@.words.len(),
            r matches Some(s) ==> s@ == self@.words[code as int],
    {
        if (code as usize) < self.values.len() {
            Some(self.values[code as usize].as_str())
        } else {
            None
        }
    }

    pub fn postings(&self, code: u32) -> (r: Option<&RoaringBitmap>)
        requires
            self.wf(),
        ensures
            r is Some <==> code < self@.postings.len(),
            r matches Some(b) ==> bitmap::rows_of(*b) == self@.postings[code as int],
    {
        if (code as usize) < self.postings.len() {
            Some(&self.postings[code as usize])
        } else {
            None
        }
    }

    pub fn cardinality(&self) -> (n: usize)
        ensures
            n == self@.words.len(),
    {
        self.values.len()
    }
}

impl Default for StringDictionary {
    fn default() -> (r: StringDictionary)
        ensures
            r.wf(),
            r@ == Lexicon::empty(),
    {
        StringDictionary::new()
    }
}

/// Codes and strings are inverse to each other: the code of a string leads back
/// to the string, and every code in use is the code of its string.
pub proof fn law_codes_and_words_are_inverse(l: Lexicon, value: Seq<char>, c: u32)
    requires
        l.wf(),
    ensures
        l.code(value) matches Some(k) ==> k < l.words.len() && l.words[k as int] == value,
        c < l.words.len() ==> l.code(l.words[c as int]) == Some(c),
{
}

/// Codes are stable: interning keeps every code that was given before, and
/// every row that was recorded.
pub proof fn law_interning_keeps_codes(l: Lexicon, value: Seq<char>, row: u32, other: Seq<char>)
    requires
        l.wf(),
        l.code(other) is Some,
    ensures
        l.interned(value, row).code(other) == l.code(other),
        l.rows_with(other).subset_of(l.interned(value, row).rows_with(other)),
        other != value ==> l.interned(value, row).rows_with(other) == l.rows_with(other),
{
    let after = l.interned(value, row);
    let i = l.words.index_of(other);
    assert(after.words[i] == other);
    if !l.words.contains(value) {
        let j = after.words.index_of(other);
        assert(j == i);
    }
}

/// Interning records the row under the string.
pub proof fn law_interned_row_is_found(l: Lexicon, value: Seq<char>, row: u32)
    requires
        l.wf(),
    ensures
        l.interned(value, row).rows_with(value) == l.rows_with(value).insert(row),
{
    let after = l.interned(value, row);
    if !l.words.contains(value) {
        assert(after.words[l.words.len() as int] == value);
        let j = after.words.index_of(value);
        assert(j == l.words.len()) by {
            if j < l.words.len() {
                assert(l.words[j] == value);
            }
        }
    }
}

/// Interning a row that carried nothing yet: it now carries the string, and
/// every other row carries what it carried.
pub proof fn lemma_interned_at(l: Lexicon, value: Seq<char>, row: u32)
    requires
        l.wf(),
        l.single(),
        l.at(row) is None,
    ensures
        l.interned(value, row).single(),
        l.interned(value, row).at(row) == Some(value),
        forall|r: u32| r != row ==> #[trigger] l.interned(value, row).at(r) == l.at(r),
        (forall|c: int| 0 <= c < l.words.len() ==> #[trigger] l.used(c)) ==> (forall|c: int|
            0 <= c < l.interned(value, row).words.len() ==> #[trigger] l.interned(value, row).used(
                c,
            )),
{
    let after = l.interned(value, row);
    let k: int = if l.words.contains(value) {
        l.words.index_of(value)
    } else {
        l.words.len() as int
    };
    assert(forall|c: int, r: u32| r != row ==> (#[trigger] after.carries(c, r) == l.carries(c, r)));
    assert forall|c: int| #[trigger] after.carries(c, row) <==> c == k by {
        if after.carries(c, row) && c != k {
            assert(l.carries(c, row));
        }
    }
    assert(after.carries(k, row));
    assert(after.words[k] == value);
    if forall|c: int| 0 <= c < l.words.len() ==> #[trigger] l.used(c) {
        assert forall|c: int| 0 <= c < after.words.len() implies #[trigger] after.used(c) by {
            if c != k {
                assert(l.used(c));
                let r = choose|r: u32| l.carries(c, r);
                assert(after.carries(c, r));
            }
        }
    }
    assert forall|c: int, d: int, r: u32| #[trigger]
        after.carries(c, r) && #[trigger] after.carries(d, r) implies c == d by {
        if r != row {
            assert(l.carries(c, r) && l.carries(d, r));
        }
    }
    assert forall|r: u32| r != row implies #[trigger] after.at(r) == l.at(r) by {
        if exists|c: int| l.carries(c, r) {
            let c = choose|c: int| l.carries(c, r);
            assert(after.carries(c, r));
            let d = choose|d: int| after.carries(d, r);
            assert(l.carries(d, r));
            assert(c == d);
            assert(after.words[c] == l.words[c]);
        } else {
            assert(forall|c: int| !after.carries(c, r)) by {
                assert forall|c: int| !after.carries(c, r) by {
                    assert(!l.carries(c, r));
                }
            }
        }
    }
}

} // verus!
