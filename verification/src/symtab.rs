//! The symbol table: symbol name to resolved absolute address, built
//! incrementally while linking and read by the assembler. Kept as an ordered
//! list of pairs so that identical inputs give identical tables.

use vstd::prelude::*;

verus! {

/// The first address bound to `name`, walking the table front to back.
pub open spec fn spec_lookup(entries: Seq<(Seq<char>, u32)>, name: Seq<char>) -> Option<u32>
    decreases entries.len(),
{
    if entries.len() == 0 {
        None
    } else if entries[0].0 == name {
        Some(entries[0].1)
    } else {
        spec_lookup(entries.subrange(1, entries.len() as int), name)
    }
}

/// Name to resolved absolute address. Earlier entries take precedence: the
/// linker records each name once, at its first definition.
pub struct SymbolTable {
    entries: Vec<(String, u32)>,
}

impl View for SymbolTable {
    type V = Seq<(Seq<char>, u32)>;

    closed spec fn view(&self) -> Seq<(Seq<char>, u32)> {
        self.entries.deep_view()
    }
}

impl SymbolTable {
    pub fn new() -> (r: SymbolTable)
        ensures
            r@ == Seq::<(Seq<char>, u32)>::empty(),
    {
        let r = SymbolTable { entries: Vec::new() };
        proof {
            assert(r@ =~= Seq::<(Seq<char>, u32)>::empty());
        }
        r
    }

    pub fn len(&self) -> (r: usize)
        ensures
            r == self@.len(),
    {
        self.entries.len()
    }

    pub open spec fn spec_index(&self, i: int) -> (Seq<char>, u32) {
        self@[i]
    }

    /// The entry at `i`, in insertion order.
    pub fn entry_at(&self, i: usize) -> (r: (String, u32))
        requires
            i < self@.len(),
        ensures
            (r.0@, r.1) == self@[i as int],
    {
        let e = &self.entries[i];
        (e.0.clone(), e.1)
    }

    /// A copy holding the same entries in the same order.
    pub fn duplicate(&self) -> (r: SymbolTable)
        ensures
            r@ == self@,
    {
        let mut entries: Vec<(String, u32)> = Vec::new();
        let mut i: usize = 0;
        while i < self.entries.len()
            invariant
                i <= self.entries.len(),
                entries@.len() == i,
                forall|j: int|
                    0 <= j < i ==> entries.deep_view()[j] == self.entries.deep_view()[j],
            decreases self.entries.len() - i,
        {
            let ghost prev = entries@;
            let ghost prev_deep = entries.deep_view();
            let e = &self.entries[i];
            let c0 = e.0.clone();
            proof {
                assert(c0@ == self.entries@[i as int].0@);
            }
            entries.push((c0, e.1));
            proof {
                assert forall|j: int| 0 <= j < i + 1 implies entries.deep_view()[j]
                    == self.entries.deep_view()[j] by {
                    assert(entries.deep_view()[j] == entries@[j].deep_view());
                    if j < i {
                        assert(prev_deep[j] == prev[j].deep_view());
                        assert(entries@[j] == prev[j]);
                        assert(prev_deep[j] == self.entries.deep_view()[j]);
                    } else {
                        assert(entries@[j] == (c0, e.1));
                        assert(self.entries.deep_view()[j] == self.entries@[j].deep_view());
                    }
                }
            }
            i += 1;
        }
        proof {
            assert(entries.deep_view() =~~= self.entries.deep_view());
        }
        SymbolTable { entries }
    }

    /// The first address bound to `name`, or `None`.
    pub fn lookup(&self, name: &str) -> (r: Option<u32>)
        ensures
            r == spec_lookup(self@, name@),
    {
        let owned: String = name.to_owned();
        let n = self.entries.len();
        proof {
            assert(self@.subrange(0, n as int) =~= self@);
        }
        let mut i: usize = 0;
        while i < n
            invariant
                i <= n,
                n == self@.len(),
                owned@ == name@,
                spec_lookup(self@, name@) == spec_lookup(
                    self@.subrange(i as int, n as int),
                    name@,
                ),
            decreases n - i,
        {
            let ghost rest = self@.subrange(i as int, n as int);
            proof {
                assert(rest[0] == self@[i as int]);
                assert(rest.subrange(1, rest.len() as int) =~= self@.subrange(
                    i + 1 as int,
                    n as int,
                ));
            }
            if self.entries[i].0 == owned {
                return Some(self.entries[i].1);
            }
            i += 1;
        }
        proof {
            assert(self@.subrange(n as int, n as int) =~= Seq::<(Seq<char>, u32)>::empty());
        }
        None
    }

    /// Records `name` at `address` unless an earlier definition stands:
    /// the first definition of a name wins.
    pub fn insert_first_wins(&mut self, name: String, address: u32)
        ensures
            spec_lookup(old(self)@, name@) is Some ==> final(self)@ == old(self)@,
            spec_lookup(old(self)@, name@) is None ==> final(self)@ == old(self)@.push(
                (name@, address),
            ),
    {
        if self.lookup(name.as_str()).is_none() {
            let ghost nv = name@;
            self.entries.push((name, address));
            proof {
                assert(self@ =~= old(self)@.push((nv, address)));
            }
        }
    }
}

/// `entries` with `name` bound to `address`: an existing entry is
/// overwritten in place, a new name is appended.
pub open spec fn spec_insert_replace(
    entries: Seq<(Seq<char>, u32)>,
    name: Seq<char>,
    address: u32,
) -> Seq<(Seq<char>, u32)>
    decreases entries.len(),
{
    if entries.len() == 0 {
        seq![(name, address)]
    } else if entries[0].0 == name {
        seq![(name, address)] + entries.subrange(1, entries.len() as int)
    } else {
        seq![entries[0]] + spec_insert_replace(
            entries.subrange(1, entries.len() as int),
            name,
            address,
        )
    }
}

pub proof fn lemma_insert_replace_at(
    entries: Seq<(Seq<char>, u32)>,
    name: Seq<char>,
    address: u32,
    k: int,
)
    requires
        0 <= k < entries.len(),
        entries[k].0 == name,
        forall|j: int| 0 <= j < k ==> entries[j].0 != name,
    ensures
        spec_insert_replace(entries, name, address) == entries.update(k, (name, address)),
    decreases k,
{
    let rest = entries.subrange(1, entries.len() as int);
    if k == 0 {
        assert(seq![(name, address)] + rest =~= entries.update(0, (name, address)));
    } else {
        lemma_insert_replace_at(rest, name, address, k - 1);
        assert(seq![entries[0]] + rest.update(k - 1, (name, address)) =~= entries.update(
            k,
            (name, address),
        ));
    }
}

pub proof fn lemma_insert_replace_absent(
    entries: Seq<(Seq<char>, u32)>,
    name: Seq<char>,
    address: u32,
)
    requires
        forall|j: int| 0 <= j < entries.len() ==> (#[trigger] entries[j]).0 != name,
    ensures
        spec_insert_replace(entries, name, address) == entries.push((name, address)),
    decreases entries.len(),
{
    if entries.len() > 0 {
        let rest = entries.subrange(1, entries.len() as int);
        assert(forall|j: int| 0 <= j < rest.len() ==> (#[trigger] rest[j]).0 != name);
        lemma_insert_replace_absent(rest, name, address);
        assert(seq![entries[0]] + rest.push((name, address)) =~= entries.push((name, address)));
    } else {
        assert(seq![(name, address)] =~= entries.push((name, address)));
    }
}

impl SymbolTable {
    /// Binds `name` to `address`: a later definition of a name overwrites an
    /// earlier one, as the map reader's table reads.
    pub fn insert_replace(&mut self, name: String, address: u32)
        ensures
            final(self)@ == spec_insert_replace(old(self)@, name@, address),
    {
        let n = self.entries.len();
        let mut i: usize = 0;
        while i < n
            invariant
                i <= n,
                n == self@.len(),
                self@ == old(self)@,
                forall|j: int| 0 <= j < i ==> (#[trigger] self@[j]).0 != name@,
            decreases n - i,
        {
            if self.entries[i].0 == name {
                proof {
                    assert(self@[i as int].0 == name@);
                    lemma_insert_replace_at(self@, name@, address, i as int);
                }
                let e = vstd::std_specs::vec::vec_index_mut(&mut self.entries, i);
                *e = (name, address);
                proof {
                    assert(self@ =~~= old(self)@.update(i as int, (name@, address)));
                }
                return ;
            }
            proof {
                assert(self@[i as int] == (self.entries@[i as int].0@, self.entries@[i as int].1));
            }
            i += 1;
        }
        proof {
            lemma_insert_replace_absent(self@, name@, address);
        }
        let ghost nv = name@;
        self.entries.push((name, address));
        proof {
            assert(self@ =~~= old(self)@.push((nv, address)));
        }
    }
}

} // verus!
