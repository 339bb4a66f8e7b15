use crate::text::str_eq;
use vstd::prelude::*;

verus! {

#[derive(Debug, Clone, Copy, PartialEq, Eq, Hash)]
pub struct SymbolId(pub usize);

/// Interned names: each name is stored once and known by its index.
pub struct SymbolTable {
    id_to_name: Vec<String>,
}

impl SymbolTable {
    pub closed spec fn names(&self) -> Seq<Seq<char>> {
        self.id_to_name@.map_values(|s: String| s@)
    }

    /// No name is stored twice.
    pub open spec fn wf(&self) -> bool {
        self.names().no_duplicates()
    }

    pub fn new() -> (r: Self)
        ensures
            r.names() == Seq::<Seq<char>>::empty(),
            r.wf(),
    {
        let r = Self { id_to_name: Vec::new() };
        assert(r.names() =~= Seq::<Seq<char>>::empty());
        r
    }

    /// The id of `name`, storing it first if it is new.
    pub fn add_symbol(&mut self, name: &str) -> (r: SymbolId)
        requires
            old(self).wf(),
        ensures
            final(self).wf(),
            old(self).names().contains(name@) ==> final(self).names() == old(self).names(),
            !old(self).names().contains(name@) ==> final(self).names() == old(self).names().push(
                name@,
            ),
            r.0 < final(self).names().len(),
            final(self).names()[r.0 as int] == name@,
    {
        let mut i: usize = 0;
        while i < self.id_to_name.len()
            invariant
                0 <= i <= self.id_to_name.len(),
                self.id_to_name@.len() == self.names().len(),
                self.id_to_name@ == old(self).id_to_name@,
                self.wf(),
                forall|k: int| 0 <= k < i ==> self.names()[k] != name@,
            decreases self.id_to_name.len() - i,
        {
            if str_eq(self.id_to_name[i].as_str(), name) {
                assert(self.names()[i as int] == name@);
                return SymbolId(i);
            }
            i = i + 1;
        }
        let ghost before = self.names();
        let id = SymbolId(self.id_to_name.len());
        self.id_to_name.push(name.to_owned());
        proof {
            assert(self.names() =~= before.push(name@));
            assert forall|a: int, b: int|
                0 <= a < b < self.names().len() implies self.names()[a] != self.names()[b] by {
                if b < before.len() {
                    assert(before[a] != before[b]);
                }
            }
        }
        id
    }

    /// The name with id `id`, if there is one.
    pub fn get_symbol(&self, id: &SymbolId) -> (r: Option<&str>)
        ensures
            match r {
                Some(s) => id.0 < self.names().len() && s@ == self.names()[id.0 as int],
                None => id.0 >= self.names().len(),
            },
    {
        if id.0 < self.id_to_name.len() {
            Some(self.id_to_name[id.0].as_str())
        } else {
            None
        }
    }
}

/// Looking up a name in a table that may be absent.
pub trait SymbolTableExt {
    fn get_symbol(&self, symbols: &SymbolId) -> Option<&str>;
}

impl SymbolTableExt for Option<&SymbolTable> {
    fn get_symbol(&self, id: &SymbolId) -> (r: Option<&str>)
        ensures
            match *self {
                None => r is None,
                Some(t) => match r {
                    Some(s) => id.0 < t.names().len() && s@ == t.names()[id.0 as int],
                    None => id.0 >= t.names().len(),
                },
            },
    {
        match self {
            Some(t) => t.get_symbol(id),
            None => None,
        }
    }
}

/// Interning gives each name a single id: pushing a name that is already
/// stored gives the id it got before and leaves the names as they were.
pub proof fn law_intern_once(
    first: SymbolTable,
    a: SymbolId,
    second: SymbolTable,
    b: SymbolId,
    name: Seq<char>,
)
    requires
        first.wf(),
        0 <= a.0 < first.names().len(),
        first.names()[a.0 as int] == name,
        first.names().contains(name) ==> second.names() == first.names(),
        0 <= b.0 < second.names().len(),
        second.names()[b.0 as int] == name,
    ensures
        a == b,
        second.names() == first.names(),
{
    assert(first.names().contains(name));
    assert(first.names().no_duplicates());
}

} // verus!
