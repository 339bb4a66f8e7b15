use crate::runtime::session::{ParamRange, StringRange};
use crate::span::Spanned;
use crate::text::str_eq;
use crate::util::{ArenaId, ArenaRange};
use vstd::prelude::*;

verus! {

pub type SExpression = Spanned<Expression>;

pub type ExpressionId = ArenaId<SExpression>;

pub type ExpressionRange = ArenaRange<SExpression>;

/// An expression of the language; sub-expressions, names, parameters and
/// texts are referred to by ids into a session. A floating-point literal is
/// kept as its text in the session's strings.
#[derive(Debug, Clone, Copy, PartialEq)]
pub enum Expression {
    Null,
    Boolean(bool),
    Integer(i64),
    Float(StringRange),
    String(StringRange),
    Symbol(SymbolId),
    SymbolQ(SymbolId),
    List(ExpressionRange),
    Do(ExpressionRange),
    Call { call: ExpressionId, args: ExpressionRange },
    If { cond: ExpressionId, t_branch: ExpressionId, f_branch: ExpressionId },
    Fn { req_params: ParamRange, rest_param: Option<SymbolId>, body: ExpressionId },
    Bind { kind: BindKind, name: SymbolId, value: ExpressionId },
}

/// How a binding form binds: `def` makes a new variable, `set` assigns to an
/// existing one.
#[derive(Debug, Clone, Copy, PartialEq, Eq)]
pub enum BindKind {
    Def,
    Assign,
}

#[derive(Debug, Clone, Copy, PartialEq, Eq, Hash, Structural)]
pub struct SymbolId(usize);

impl SymbolId {
    pub closed spec fn index(self) -> int {
        self.0 as int
    }
}

/// Whether `name` is stored in `names` as an interned (not fresh) name.
pub open spec fn interned_in(names: Seq<Seq<char>>, fresh: Seq<bool>, name: Seq<char>) -> bool {
    exists|k: int| 0 <= k < names.len() && !fresh[k] && #[trigger] names[k] == name
}

/// Names of symbols, each known by its index. An interned name is stored
/// once; a fresh symbol is a new entry each time, whatever its name.
#[derive(Debug, Clone, PartialEq)]
pub struct SymbolTable {
    id_to_name: Vec<String>,
    fresh: Vec<bool>,
}

impl SymbolTable {
    pub closed spec fn names(&self) -> Seq<Seq<char>> {
        self.id_to_name@.map_values(|s: String| s@)
    }

    /// Which entries are fresh symbols.
    pub closed spec fn fresh(&self) -> Seq<bool> {
        self.fresh@
    }

    /// No interned name is stored twice.
    pub open spec fn wf(&self) -> bool {
        &&& self.fresh().len() == self.names().len()
        &&& forall|a: int, b: int|
            0 <= a < b < self.names().len() && !self.fresh()[a] && !self.fresh()[b] ==> self.names()[a]
                != self.names()[b]
    }

    pub fn new() -> (r: Self)
        ensures
            r.names() == Seq::<Seq<char>>::empty(),
            r.fresh() == Seq::<bool>::empty(),
            r.wf(),
    {
        let r = Self { id_to_name: Vec::new(), fresh: Vec::new() };
        assert(r.names() =~= Seq::<Seq<char>>::empty());
        r
    }

    /// The id of `name`, interning it first if it is new.
    pub fn push(&mut self, name: &str) -> (r: SymbolId)
        requires
            old(self).wf(),
        ensures
            final(self).wf(),
            interned_in(old(self).names(), old(self).fresh(), name@) ==> final(self).names()
                == old(self).names() && final(self).fresh() == old(self).fresh(),
            !interned_in(old(self).names(), old(self).fresh(), name@) ==> final(self).names()
                == old(self).names().push(name@) && final(self).fresh() == old(self).fresh().push(
                false,
            ),
            0 <= r.index() < final(self).names().len(),
            final(self).names()[r.index()] == name@,
            !final(self).fresh()[r.index()],
    {
        let mut i: usize = 0;
        while i < self.id_to_name.len()
            invariant
                0 <= i <= self.id_to_name.len(),
                self.id_to_name@.len() == self.names().len(),
                self.id_to_name@ == old(self).id_to_name@,
                self.fresh@ == old(self).fresh@,
                self.wf(),
                forall|k: int| 0 <= k < i && !self.fresh()[k] ==> self.names()[k] != name@,
            decreases self.id_to_name.len() - i,
        {
            if !self.fresh[i] && str_eq(self.id_to_name[i].as_str(), name) {
                assert(self.names()[i as int] == name@);
                return SymbolId(i);
            }
            i = i + 1;
        }
        let ghost before = self.names();
        let ghost fresh_before = self.fresh();
        assert(!interned_in(before, fresh_before, name@));
        let id = SymbolId(self.id_to_name.len());
        self.id_to_name.push(name.to_owned());
        self.fresh.push(false);
        proof {
            assert(self.names() =~= before.push(name@));
            assert forall|a: int, b: int|
                0 <= a < b < self.names().len() && !self.fresh()[a] && !self.fresh()[b] implies self.names()[a]
                != self.names()[b] by {
                if b < before.len() {
                    assert(fresh_before[a] == self.fresh()[a]);
                    assert(fresh_before[b] == self.fresh()[b]);
                } else {
                    assert(fresh_before[a] == self.fresh()[a]);
                    assert(before[a] == self.names()[a]);
                }
            }
        }
        id
    }

    /// A new symbol named `name`, distinct from every other symbol.
    pub fn push_fresh(&mut self, name: &str) -> (r: SymbolId)
        requires
            old(self).wf(),
        ensures
            final(self).wf(),
            final(self).names() == old(self).names().push(name@),
            final(self).fresh() == old(self).fresh().push(true),
            r.index() == old(self).names().len(),
    {
        let ghost before = self.names();
        let ghost fresh_before = self.fresh();
        let id = SymbolId(self.id_to_name.len());
        self.id_to_name.push(name.to_owned());
        self.fresh.push(true);
        proof {
            assert(self.names() =~= before.push(name@));
            assert forall|a: int, b: int|
                0 <= a < b < self.names().len() && !self.fresh()[a] && !self.fresh()[b] implies self.names()[a]
                != self.names()[b] by {
                assert(fresh_before[a] == self.fresh()[a]);
                assert(b < before.len());
                assert(fresh_before[b] == self.fresh()[b]);
            }
        }
        id
    }

    pub fn get(&self, id: SymbolId) -> (r: &str)
        requires
            0 <= id.index() < self.names().len(),
        ensures
            r@ == self.names()[id.index()],
    {
        self.id_to_name[id.0].as_str()
    }
}

/// Interning gives each name a single id: pushing a name that is already
/// interned gives the id it got before and leaves the table as it was.
pub proof fn law_intern_once(
    first: SymbolTable,
    a: SymbolId,
    second: SymbolTable,
    b: SymbolId,
    name: Seq<char>,
)
    requires
        first.wf(),
        0 <= a.index() < first.names().len(),
        first.names()[a.index()] == name,
        !first.fresh()[a.index()],
        interned_in(first.names(), first.fresh(), name) ==> second.names() == first.names()
            && second.fresh() == first.fresh(),
        0 <= b.index() < second.names().len(),
        second.names()[b.index()] == name,
        !second.fresh()[b.index()],
    ensures
        a == b,
        second.names() == first.names(),
{
    assert(interned_in(first.names(), first.fresh(), name));
    if a.index() < b.index() {
        assert(first.names()[a.index()] != first.names()[b.index()]);
    } else if b.index() < a.index() {
        assert(first.names()[b.index()] != first.names()[a.index()]);
    }
}

/// Interned names and their ids go one to one: two ids of interned (not
/// fresh) entries name the same text exactly when they are the same id.
pub proof fn law_table_ids_one_to_one(t: SymbolTable, a: SymbolId, b: SymbolId)
    requires
        t.wf(),
        0 <= a.index() < t.names().len(),
        0 <= b.index() < t.names().len(),
        !t.fresh()[a.index()],
        !t.fresh()[b.index()],
    ensures
        (a == b) <==> (t.names()[a.index()] == t.names()[b.index()]),
{
    if a.index() == b.index() {
        assert(a.0 == b.0);
    }
}

/// Pushing further names keeps what every earlier id names: a table whose
/// names extend those of another (as `push` and `push_fresh` leave them)
/// gives each old id the same name.
pub proof fn law_table_names_kept(before: SymbolTable, after: SymbolTable, id: SymbolId)
    requires
        before.names().is_prefix_of(after.names()),
        0 <= id.index() < before.names().len(),
    ensures
        id.index() < after.names().len(),
        after.names()[id.index()] == before.names()[id.index()],
{
}

} // verus!
