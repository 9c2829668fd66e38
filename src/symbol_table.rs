use vstd::prelude::*;

verus! {

/// An interned string: the position of the string in the table that issued it.
#[derive(Debug, Clone, Copy, PartialEq, Eq, Structural)]
pub struct SymbolHandle {
    idx: usize,
}

impl SymbolHandle {
    pub closed spec fn index(self) -> nat {
        self.idx as nat
    }

    /// Two handles are equal exactly when they name the same position.
    pub proof fn lemma_index_injective(a: SymbolHandle, b: SymbolHandle)
        ensures
            a.index() == b.index() <==> a == b,
    {
    }
}

/// The table after interning `s` into `tab`, and the position that `s` then has.
pub open spec fn intern_spec(tab: Seq<Seq<char>>, s: Seq<char>) -> (Seq<Seq<char>>, nat) {
    if tab.contains(s) {
        (tab, tab.index_of(s) as nat)
    } else {
        (tab.push(s), tab.len())
    }
}

/// `new` starts with `old`: a table only ever grows at its end.
pub open spec fn grows(old: Seq<Seq<char>>, new: Seq<Seq<char>>) -> bool {
    old.len() <= new.len() && new.subrange(0, old.len() as int) == old
}

/// Interning never changes the positions already taken.
pub proof fn lemma_intern_grows(tab: Seq<Seq<char>>, s: Seq<char>)
    ensures
        grows(tab, intern_spec(tab, s).0),
{
    assert(intern_spec(tab, s).0.subrange(0, tab.len() as int) =~= tab);
}

pub proof fn lemma_grows_trans(a: Seq<Seq<char>>, b: Seq<Seq<char>>, c: Seq<Seq<char>>)
    requires
        grows(a, b),
        grows(b, c),
    ensures
        grows(a, c),
{
    assert(c.subrange(0, a.len() as int) =~= c.subrange(0, b.len() as int).subrange(0, a.len() as int));
}

/// A growing sequence of distinct strings; a string's handle is its position.
pub struct SymbolTable {
    symbols: Vec<String>,
}

impl View for SymbolTable {
    type V = Seq<Seq<char>>;

    closed spec fn view(&self) -> Seq<Seq<char>> {
        self.symbols@.map_values(|s: String| s@)
    }
}

impl SymbolTable {
    /// No string appears twice.
    pub open spec fn wf(&self) -> bool {
        self@.no_duplicates()
    }

    /// Whether `h` was issued by this table.
    pub open spec fn issued(&self, h: SymbolHandle) -> bool {
        h.index() < self@.len()
    }

    pub fn new() -> (r: SymbolTable)
        ensures
            r@ == Seq::<Seq<char>>::empty(),
            r.wf(),
    {
        let r = SymbolTable { symbols: Vec::new() };
        assert(r@ =~= Seq::<Seq<char>>::empty());
        r
    }

    /// The handle of `s`, adding `s` to the table when it is new.
    pub fn handle(&mut self, s: &str) -> (r: SymbolHandle)
        requires
            old(self).wf(),
        ensures
            final(self).wf(),
            grows(old(self)@, final(self)@),
            (final(self)@, r.index()) == intern_spec(old(self)@, s@),
            final(self)@[r.index() as int] == s@,
            r.index() < final(self)@.len(),
    {
        proof {
            lemma_intern_grows(self@, s@);
        }
        let owned = s.to_owned();
        let mut i: usize = 0;
        while i < self.symbols.len()
            invariant
                i <= self.symbols@.len(),
                self@ == old(self)@,
                self.wf(),
                owned@ == s@,
                forall|j: int| 0 <= j < i ==> self@[j] != s@,
            decreases self.symbols@.len() - i,
        {
            if self.symbols[i] == owned {
                assert(self@[i as int] == s@);
                assert(self@.contains(s@));
                assert(self@.index_of(s@) == i as int) by {
                    let k = self@.index_of(s@);
                    assert(0 <= k < self@.len() && self@[k] == s@);
                };
                assert(self@.subrange(0, self@.len() as int) =~= self@);
                return SymbolHandle { idx: i };
            }
            i = i + 1;
        }
        assert(!self@.contains(s@));
        let n = self.symbols.len();
        self.symbols.push(owned);
        assert(self@ =~= old(self)@.push(s@));
        SymbolHandle { idx: n }
    }

    /// The string that `h` stands for.
    pub fn lookup(&self, h: SymbolHandle) -> (r: &str)
        requires
            self.issued(h),
        ensures
            r@ == self@[h.index() as int],
    {
        self.symbols[h.idx].as_str()
    }

    /// Interning a string twice gives one handle and leaves the table as the
    /// first call left it; the handle looks up to the string.
    pub proof fn lemma_intern_idempotent(tab: Seq<Seq<char>>, s: Seq<char>)
        requires
            tab.no_duplicates(),
        ensures
            intern_spec(intern_spec(tab, s).0, s) == intern_spec(tab, s),
            intern_spec(tab, s).0[intern_spec(tab, s).1 as int] == s,
            intern_spec(tab, s).0.no_duplicates(),
    {
        let (t1, h1) = intern_spec(tab, s);
        if !tab.contains(s) {
            assert(t1[tab.len() as int] == s);
            assert(t1.contains(s));
            let k = t1.index_of(s);
            assert(t1[k] == s);
            if k != tab.len() {
                assert(tab[k] == s);
            }
        } else {
            let k = tab.index_of(s);
            assert(tab[k] == s);
        }
    }
}

} // verus!
