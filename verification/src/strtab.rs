//! Interning of identifiers: every distinct byte string gets one handle,
//! and handles are compared instead of strings.
use vstd::prelude::*;
use vstd::slice::slice_to_vec;

verus! {

/// A handle on an interned string. Handles of one table are equal exactly
/// when the strings are, and they are ordered by the time of their first
/// interning.
#[derive(Debug, Copy, Clone, PartialEq, Eq, PartialOrd, Ord, Structural, Hash)]
pub struct Symbol {
    pub id: usize,
}

/// The table of interned strings. It only ever grows, so a handle stays
/// valid for as long as the table lives.
pub struct StringTable {
    entries: Vec<Vec<u8>>,
}

/// The strings of `entries`, each as a sequence of bytes.
pub open spec fn entry_views(entries: Seq<Vec<u8>>) -> Seq<Seq<u8>> {
    Seq::new(entries.len(), |i: int| entries[i]@)
}

impl View for StringTable {
    type V = Seq<Seq<u8>>;

    closed spec fn view(&self) -> Seq<Seq<u8>> {
        entry_views(self.entries@)
    }
}

impl StringTable {
    /// No string stands in the table twice.
    pub open spec fn wf(&self) -> bool {
        forall|i: int, j: int| 0 <= i < j < self@.len() ==> self@[i] != self@[j]
    }

    /// The handle belongs to this table.
    pub open spec fn owns(&self, s: Symbol) -> bool {
        s.id < self@.len()
    }

    /// The string that the handle stands for.
    pub open spec fn bytes(&self, s: Symbol) -> Seq<u8> {
        self@[s.id as int]
    }

    /// An empty table.
    pub fn new() -> (t: StringTable)
        ensures
            t.wf(),
            t@.len() == 0,
    {
        StringTable { entries: Vec::new() }
    }

    /// The number of distinct strings that were interned.
    pub fn len(&self) -> (n: usize)
        ensures
            n == self@.len(),
    {
        self.entries.len()
    }

    /// The handle of `value` if it was interned before.
    pub fn lookup(&self, value: &[u8]) -> (r: Option<Symbol>)
        ensures
            r matches Some(s) ==> self.owns(s) && self.bytes(s) == value@,
            r is None ==> forall|i: int| 0 <= i < self@.len() ==> self@[i] != value@,
    {
        let mut i: usize = 0;
        while i < self.entries.len()
            invariant
                i <= self.entries@.len(),
                self@ == entry_views(self.entries@),
                forall|k: int| 0 <= k < i ==> self@[k] != value@,
            decreases self.entries@.len() - i,
        {
            if bytes_eq(self.entries[i].as_slice(), value) {
                return Some(Symbol { id: i });
            }
            i += 1;
        }
        None
    }

    /// The handle of `value`. The string is added to the table if it was
    /// not interned before; the handles that exist keep their strings.
    pub fn intern(&mut self, value: &[u8]) -> (s: Symbol)
        requires
            old(self).wf(),
        ensures
            final(self).wf(),
            final(self).owns(s),
            final(self).bytes(s) == value@,
            final(self)@.len() >= old(self)@.len(),
            final(self)@.subrange(0, old(self)@.len() as int) == old(self)@,
            final(self)@ == (if old(self)@.contains(value@) {
                old(self)@
            } else {
                old(self)@.push(value@)
            }),
    {
        match self.lookup(value) {
            Some(s) => {
                assert(self@.subrange(0, self@.len() as int) =~= self@);
                assert(self@[s.id as int] == value@);
                s
            },
            None => {
                let id = self.entries.len();
                let ghost before = self@;
                self.entries.push(slice_to_vec(value));
                assert(self@ =~= before.push(value@));
                assert(self@.subrange(0, before.len() as int) =~= before);
                assert(!before.contains(value@)) by {
                    if before.contains(value@) {
                        let i = choose|i: int| 0 <= i < before.len() && before[i] == value@;
                        assert(before[i] != value@);
                    }
                }
                Symbol { id }
            },
        }
    }

    /// The string that the handle stands for.
    pub fn get(&self, s: Symbol) -> (b: &[u8])
        requires
            self.owns(s),
        ensures
            b@ == self.bytes(s),
    {
        self.entries[s.id].as_slice()
    }
}

/// Whether two byte strings are the same.
pub fn bytes_eq(a: &[u8], b: &[u8]) -> (r: bool)
    ensures
        r == (a@ == b@),
{
    if a.len() != b.len() {
        return false;
    }
    let mut i: usize = 0;
    while i < a.len()
        invariant
            a@.len() == b@.len(),
            i <= a@.len(),
            forall|k: int| 0 <= k < i ==> a@[k] == b@[k],
        decreases a@.len() - i,
    {
        if a[i] != b[i] {
            return false;
        }
        i += 1;
    }
    assert(a@ =~= b@);
    true
}

/// Two handles of a table are equal exactly when their strings are.
pub proof fn lemma_symbols_equal_iff_strings(t: &StringTable, a: Symbol, b: Symbol)
    requires
        t.wf(),
        t.owns(a),
        t.owns(b),
    ensures
        a == b <==> t.bytes(a) == t.bytes(b),
{
    if a.id < b.id {
        assert(t@[a.id as int] != t@[b.id as int]);
    } else if b.id < a.id {
        assert(t@[b.id as int] != t@[a.id as int]);
    }
}

} // verus!
