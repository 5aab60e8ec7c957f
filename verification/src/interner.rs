//! A table that gives every distinct string one handle.

use vstd::prelude::*;

verus! {

/// The handle of an interned string. Two handles of one interner are equal
/// exactly when they stand for the same string.
#[derive(Clone, Copy, Debug, PartialEq, Eq, Structural, Hash)]
pub struct InternedStr {
    slot: usize,
}

impl InternedStr {
    /// The place of the string in its interner's table.
    pub closed spec fn slot(self) -> nat {
        self.slot as nat
    }

    /// The handle of the string at place `slot`.
    pub closed spec fn at(slot: nat) -> InternedStr {
        InternedStr { slot: slot as usize }
    }

    /// A handle is the handle at its own place.
    pub proof fn lemma_at(handle: InternedStr)
        ensures
            InternedStr::at(handle.slot()) == handle,
    {
    }

    /// The handle at a place that a `usize` can hold has that place.
    pub proof fn lemma_slot_at(slot: nat)
        requires
            slot <= usize::MAX,
        ensures
            InternedStr::at(slot).slot() == slot,
    {
    }

    /// The place of the string in its interner's table.
    pub fn index(&self) -> (i: usize)
        ensures
            i == self.slot(),
    {
        self.slot
    }
}

/// Whether no string occurs twice in `table`.
pub open spec fn distinct(table: Seq<Seq<char>>) -> bool {
    forall|i: int, j: int| 0 <= i < j < table.len() ==> table[i] != table[j]
}

/// The table after `s` was interned: unchanged where it already holds `s`,
/// else with `s` added at the end.
pub open spec fn interned(table: Seq<Seq<char>>, s: Seq<char>) -> Seq<Seq<char>> {
    if table.contains(s) {
        table
    } else {
        table.push(s)
    }
}

/// The strings interned so far, in the order in which they first came.
pub struct Interner {
    strings: Vec<String>,
}

impl View for Interner {
    type V = Seq<Seq<char>>;

    closed spec fn view(&self) -> Seq<Seq<char>> {
        self.strings@.map_values(|s: String| s@)
    }
}

impl Interner {
    /// Whether every string has a single handle.
    pub open spec fn wf(&self) -> bool {
        distinct(self@)
    }

    /// Whether `handle` came from this interner.
    pub open spec fn holds(&self, handle: InternedStr) -> bool {
        handle.slot() < self@.len()
    }

    pub fn new() -> (interner: Interner)
        ensures
            interner@ == Seq::<Seq<char>>::empty(),
            interner.wf(),
    {
        let interner = Interner { strings: Vec::new() };
        assert(interner@ =~= Seq::<Seq<char>>::empty());
        interner
    }

    /// The table has no more places than a `usize` can count.
    pub proof fn lemma_bounded(&self)
        ensures
            self@.len() <= usize::MAX,
    {
        assert(self@.len() == self.strings.len());
    }

    /// The number of distinct strings interned so far.
    pub fn len(&self) -> (n: usize)
        ensures
            n == self@.len(),
    {
        self.strings.len()
    }

    /// The handle of `s`, if `s` was interned before.
    pub fn lookup(&self, s: &str) -> (found: Option<InternedStr>)
        ensures
            found is Some <==> self@.contains(s@),
            found matches Some(handle) ==> self.holds(handle) && self@[handle.slot() as int]
                == s@,
    {
        let mut i: usize = 0;
        while i < self.strings.len()
            invariant
                i <= self.strings.len(),
                forall|k: int| 0 <= k < i ==> self@[k] != s@,
            decreases self.strings.len() - i,
        {
            if self.strings[i].as_str().eq(s) {
                assert(self@[i as int] == s@);
                return Some(InternedStr { slot: i });
            }
            i += 1;
        }
        None
    }

    /// Interns `s`: hands out the handle that `s` already has, or a new one.
    pub fn intern(&mut self, s: &str) -> (handle: InternedStr)
        requires
            old(self).wf(),
        ensures
            final(self).wf(),
            final(self)@ == interned(old(self)@, s@),
            final(self).holds(handle),
            final(self)@[handle.slot() as int] == s@,
    {
        match self.lookup(s) {
            Some(handle) => handle,
            None => {
                let slot = self.strings.len();
                self.strings.push(s.to_owned());
                assert(self@ =~= old(self)@.push(s@));
                InternedStr { slot }
            },
        }
    }

    /// The string that `handle` stands for.
    pub fn string(&self, handle: InternedStr) -> (s: &str)
        requires
            self.holds(handle),
        ensures
            s@ == self@[handle.slot() as int],
    {
        self.strings[handle.slot].as_str()
    }
}

/// Interning the same string twice gives the same handle, and two different
/// strings never share one.
pub proof fn lemma_one_handle_per_string(table: Seq<Seq<char>>, a: InternedStr, b: InternedStr)
    requires
        distinct(table),
        a.slot() < table.len(),
        b.slot() < table.len(),
    ensures
        (table[a.slot() as int] == table[b.slot() as int]) <==> a == b,
{
    if table[a.slot() as int] == table[b.slot() as int] && a.slot() != b.slot() {
        if a.slot() < b.slot() {
            assert(table[a.slot() as int] != table[b.slot() as int]);
        } else {
            assert(table[b.slot() as int] != table[a.slot() as int]);
        }
    }
}

/// Interning keeps every handle given out before, with its string.
pub proof fn lemma_interned_extends(table: Seq<Seq<char>>, s: Seq<char>)
    ensures
        table.len() <= interned(table, s).len(),
        forall|i: int| 0 <= i < table.len() ==> interned(table, s)[i] == table[i],
        interned(table, s).contains(s),
        distinct(table) ==> distinct(interned(table, s)),
{
    if !table.contains(s) {
        assert(table.push(s)[table.len() as int] == s);
    }
}

} // verus!
