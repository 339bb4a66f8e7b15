use crate::expression::SymbolId;
use crate::runtime::error::RuntimeError;
use vstd::prelude::*;

verus! {

/// A scope of an environment, known by its index.
#[derive(Debug, Clone, Copy, PartialEq, Eq, Structural)]
pub struct ScopeId(usize);

impl ScopeId {
    pub closed spec fn index(self) -> int {
        self.0 as int
    }

    /// The scope whose index is `i`.
    pub closed spec fn at(i: int) -> ScopeId {
        ScopeId(i as usize)
    }
}

/// A variable of a scope, with its value.
#[derive(Debug)]
struct Binding<V> {
    scope: usize,
    name: SymbolId,
    value: V,
}

/// Nested scopes of variables. Every scope but the root has a parent that
/// was made before it; a variable is looked for in a scope, then in its
/// parent, and so on up to the root.
#[derive(Debug)]
pub struct Environment<V> {
    parents: Vec<Option<usize>>,
    bindings: Vec<Binding<V>>,
}

/// What an environment holds: the parent of each scope, and the value of
/// each variable by its scope and its name.
pub struct EnvView<V> {
    pub parents: Seq<Option<int>>,
    pub binds: Map<(int, SymbolId), V>,
}

impl<V> EnvView<V> {
    pub open spec fn has_scope(self, s: int) -> bool {
        0 <= s < self.parents.len()
    }

    /// Every parent was made before its child, and every variable lies in a
    /// scope.
    pub open spec fn wf(self) -> bool {
        &&& forall|s: int|
            0 <= s < self.parents.len() ==> match #[trigger] self.parents[s] {
                Some(p) => 0 <= p < s,
                None => true,
            }
        &&& forall|k: (int, SymbolId)| #[trigger] self.binds.contains_key(k) ==> self.has_scope(k.0)
    }

    /// The scope in which `name` is found from scope `s`: `s` itself if it
    /// defines `name`, else the nearest ancestor that does.
    pub open spec fn owner(self, s: int, name: SymbolId) -> Option<int>
        decreases s,
    {
        if self.binds.contains_key((s, name)) {
            Some(s)
        } else if 0 <= s < self.parents.len() {
            match self.parents[s] {
                Some(p) => if 0 <= p < s {
                    self.owner(p, name)
                } else {
                    None
                },
                None => None,
            }
        } else {
            None
        }
    }

    /// The value that `name` has in scope `s`, if it has one.
    pub open spec fn lookup(self, s: int, name: SymbolId) -> Option<V> {
        match self.owner(s, name) {
            Some(f) => Some(self.binds[(f, name)]),
            None => None,
        }
    }

    /// The environment with `name` bound to `value` in scope `s`.
    pub open spec fn bind(self, s: int, name: SymbolId, value: V) -> EnvView<V> {
        EnvView { parents: self.parents, binds: self.binds.insert((s, name), value) }
    }

    /// The environment with a new scope whose parent is `s`.
    pub open spec fn with_child(self, s: int) -> EnvView<V> {
        EnvView { parents: self.parents.push(Some(s)), binds: self.binds }
    }
}

spec fn key<V>(b: Binding<V>) -> (int, SymbolId) {
    (b.scope as int, b.name)
}

spec fn binds_map<V>(bs: Seq<Binding<V>>) -> Map<(int, SymbolId), V>
    decreases bs.len(),
{
    if bs.len() == 0 {
        Map::empty()
    } else {
        binds_map(bs.drop_last()).insert(key(bs.last()), bs.last().value)
    }
}

spec fn unique<V>(bs: Seq<Binding<V>>) -> bool {
    forall|i: int, j: int| 0 <= i < j < bs.len() ==> key(#[trigger] bs[i]) != key(#[trigger] bs[j])
}

spec fn parents_view(ps: Seq<Option<usize>>) -> Seq<Option<int>> {
    ps.map_values(
        |p: Option<usize>|
            match p {
                Some(q) => Some(q as int),
                None => None,
            },
    )
}

proof fn lemma_map_has<V>(bs: Seq<Binding<V>>, k: int)
    requires
        unique(bs),
        0 <= k < bs.len(),
    ensures
        binds_map(bs).contains_key(key(bs[k])),
        binds_map(bs)[key(bs[k])] == bs[k].value,
    decreases bs.len(),
{
    if k < bs.len() - 1 {
        let d = bs.drop_last();
        assert(unique(d)) by {
            assert forall|i: int, j: int| 0 <= i < j < d.len() implies key(#[trigger] d[i]) != key(
                #[trigger] d[j],
            ) by {
                assert(d[i] == bs[i] && d[j] == bs[j]);
            }
        }
        lemma_map_has(d, k);
        assert(d[k] == bs[k]);
        assert(key(bs[k]) != key(bs.last()));
    }
}

proof fn lemma_map_dom<V>(bs: Seq<Binding<V>>, kk: (int, SymbolId))
    requires
        binds_map(bs).contains_key(kk),
    ensures
        exists|k: int| 0 <= k < bs.len() && key(#[trigger] bs[k]) == kk,
    decreases bs.len(),
{
    if key(bs.last()) != kk {
        let d = bs.drop_last();
        lemma_map_dom(d, kk);
        let k = choose|k: int| 0 <= k < d.len() && key(#[trigger] d[k]) == kk;
        assert(bs[k] == d[k]);
    } else {
        assert(key(bs[bs.len() - 1]) == kk);
    }
}

proof fn lemma_map_update<V>(bs: Seq<Binding<V>>, k: int, b: Binding<V>)
    requires
        unique(bs),
        0 <= k < bs.len(),
        key(b) == key(bs[k]),
    ensures
        binds_map(bs.update(k, b)) == binds_map(bs).insert(key(b), b.value),
    decreases bs.len(),
{
    let u = bs.update(k, b);
    let d = bs.drop_last();
    if k == bs.len() - 1 {
        assert(u.drop_last() =~= d);
        assert(binds_map(u) =~= binds_map(bs).insert(key(b), b.value));
    } else {
        assert(unique(d)) by {
            assert forall|i: int, j: int| 0 <= i < j < d.len() implies key(#[trigger] d[i]) != key(
                #[trigger] d[j],
            ) by {
                assert(d[i] == bs[i] && d[j] == bs[j]);
            }
        }
        assert(d[k] == bs[k]);
        lemma_map_update(d, k, b);
        assert(u.drop_last() =~= d.update(k, b));
        assert(u.last() == bs.last());
        assert(key(bs.last()) != key(bs[k]));
        assert(binds_map(u) =~= binds_map(bs).insert(key(b), b.value));
    }
}

/// Whether `owner` finds the same scopes in two environments that agree on
/// the scopes up to `t` and on where `name` is defined.
proof fn lemma_owner_agree<V>(e1: EnvView<V>, e2: EnvView<V>, t: int, name: SymbolId)
    requires
        0 <= t < e1.parents.len() <= e2.parents.len(),
        forall|i: int| 0 <= i < e1.parents.len() ==> e2.parents[i] == e1.parents[i],
        forall|x: int| e1.binds.contains_key((x, name)) == e2.binds.contains_key((x, name)),
    ensures
        e1.owner(t, name) == e2.owner(t, name),
    decreases t,
{
    assert(e1.parents[t] == e2.parents[t]);
    assert(e1.binds.contains_key((t, name)) == e2.binds.contains_key((t, name)));
    if !e1.binds.contains_key((t, name)) {
        match e1.parents[t] {
            Some(p) => {
                if 0 <= p < t {
                    lemma_owner_agree(e1, e2, p, name);
                }
            },
            None => {},
        }
    }
}

/// A name bound in a scope is found there, with the value it was bound to.
pub proof fn law_lookup_after_bind<V>(e: EnvView<V>, s: int, name: SymbolId, value: V)
    ensures
        e.bind(s, name, value).lookup(s, name) == Some(value),
{
}

/// Assigning to a name that scope `s` sees changes what `s` sees to the new
/// value, in the scope that held it.
pub proof fn law_lookup_after_assign<V>(e: EnvView<V>, s: int, name: SymbolId, value: V)
    requires
        e.has_scope(s),
        e.owner(s, name) is Some,
    ensures
        e.bind(e.owner(s, name)->0, name, value).lookup(s, name) == Some(value),
        e.bind(e.owner(s, name)->0, name, value).owner(s, name) == e.owner(s, name),
{
    let f = e.owner(s, name)->0;
    lemma_owner_is_bound(e, s, name);
    let e2 = e.bind(f, name, value);
    lemma_owner_agree(e, e2, s, name);
}

pub proof fn lemma_owner_is_bound<V>(e: EnvView<V>, s: int, name: SymbolId)
    requires
        e.owner(s, name) is Some,
    ensures
        e.binds.contains_key((e.owner(s, name)->0, name)),
    decreases s,
{
    if !e.binds.contains_key((s, name)) {
        let p = e.parents[s]->0;
        lemma_owner_is_bound(e, p, name);
    }
}

/// Binding one name leaves what every scope sees of other names unchanged.
pub proof fn law_bind_keeps_other_names<V>(
    e: EnvView<V>,
    s: int,
    name: SymbolId,
    value: V,
    t: int,
    other: SymbolId,
)
    requires
        e.has_scope(t),
        other != name,
    ensures
        e.bind(s, name, value).lookup(t, other) == e.lookup(t, other),
{
    let e2 = e.bind(s, name, value);
    lemma_owner_agree(e, e2, t, other);
    if e.owner(t, other) is Some {
        lemma_owner_is_bound(e, t, other);
    }
}

/// A new scope sees what its parent sees.
pub proof fn law_child_sees_parent<V>(e: EnvView<V>, s: int, name: SymbolId)
    requires
        e.wf(),
        e.has_scope(s),
    ensures
        e.with_child(s).lookup(e.parents.len() as int, name) == e.lookup(s, name),
{
    let c = e.parents.len() as int;
    let e2 = e.with_child(s);
    assert(!e.binds.contains_key((c, name)));
    assert(e2.parents[c] == Some(s));
    lemma_owner_agree(e, e2, s, name);
}

impl<V> View for Environment<V> {
    type V = EnvView<V>;

    closed spec fn view(&self) -> EnvView<V> {
        EnvView { parents: parents_view(self.parents@), binds: binds_map(self.bindings@) }
    }
}

impl<V> Environment<V> {
    /// The parent links point back, every variable lies in a scope, and no
    /// variable is held twice.
    pub closed spec fn wf(&self) -> bool {
        &&& self@.wf()
        &&& unique(self.bindings@)
        &&& forall|k: int|
            0 <= k < self.bindings@.len() ==> (#[trigger] self.bindings@[k]).scope
                < self.parents@.len()
    }

    proof fn lemma_view_wf(&self)
        requires
            forall|s: int|
                0 <= s < self.parents@.len() ==> match #[trigger] self.parents@[s] {
                    Some(p) => p < s,
                    None => true,
                },
            forall|k: int|
                0 <= k < self.bindings@.len() ==> (#[trigger] self.bindings@[k]).scope
                    < self.parents@.len(),
        ensures
            self@.wf(),
    {
        let v = self@;
        assert forall|s: int| 0 <= s < v.parents.len() implies match #[trigger] v.parents[s] {
            Some(p) => 0 <= p < s,
            None => true,
        } by {
            assert(self.parents@[s] matches Some(p) ==> p < s);
        }
        assert forall|k: (int, SymbolId)| #[trigger] v.binds.contains_key(k) implies v.has_scope(
            k.0,
        ) by {
            lemma_map_dom(self.bindings@, k);
            let i = choose|i: int| 0 <= i < self.bindings@.len() && key(#[trigger] self.bindings@[i]) == k;
            assert(self.bindings@[i].scope < self.parents@.len());
        }
    }

    proof fn lemma_parents_back(&self)
        requires
            self.wf(),
        ensures
            forall|s: int|
                0 <= s < self.parents@.len() ==> match #[trigger] self.parents@[s] {
                    Some(p) => p < s,
                    None => true,
                },
    {
        assert forall|s: int| 0 <= s < self.parents@.len() implies match #[trigger] self.parents@[s] {
            Some(p) => p < s,
            None => true,
        } by {
            assert(self@.parents[s] == match self.parents@[s] {
                Some(q) => Some(q as int),
                None => None::<int>,
            });
        }
    }

    /// An environment of one scope, the root, with no variables.
    pub fn new() -> (r: Self)
        ensures
            r.wf(),
            r@.parents == seq![None::<int>],
            r@.binds == Map::<(int, SymbolId), V>::empty(),
    {
        let mut parents: Vec<Option<usize>> = Vec::new();
        parents.push(None);
        let r = Environment { parents, bindings: Vec::new() };
        proof {
            r.lemma_view_wf();
            assert(r@.parents =~= seq![None::<int>]);
        }
        r
    }

    /// The scope that `new` made.
    /// Whether the environment has the scope `scope`.
    pub fn has_scope(&self, scope: ScopeId) -> (r: bool)
        ensures
            r == self@.has_scope(scope.index()),
    {
        scope.0 < self.parents.len()
    }

    pub fn root(&self) -> (r: ScopeId)
        ensures
            r.index() == 0,
    {
        ScopeId(0)
    }

    /// Adds a scope whose parent is `scope`.
    pub fn child(&mut self, scope: ScopeId) -> (r: ScopeId)
        requires
            old(self).wf(),
            old(self)@.has_scope(scope.index()),
        ensures
            final(self).wf(),
            r.index() == old(self)@.parents.len(),
            r == ScopeId::at(old(self)@.parents.len() as int),
            final(self)@ == old(self)@.with_child(scope.index()),
    {
        proof {
            self.lemma_parents_back();
        }
        let n = self.parents.len();
        self.parents.push(Some(scope.0));
        proof {
            self.lemma_view_wf();
            assert(self@.parents =~= old(self)@.parents.push(Some(scope.index())));
        }
        ScopeId(n)
    }

    /// The index of the variable `name` of `scope` itself, if it has one.
    fn find(&self, scope: usize, name: SymbolId) -> (r: Option<usize>)
        requires
            self.wf(),
        ensures
            match r {
                Some(k) => k < self.bindings@.len() && key(self.bindings@[k as int]) == (
                    scope as int,
                    name,
                ),
                None => forall|k: int|
                    0 <= k < self.bindings@.len() ==> key(#[trigger] self.bindings@[k]) != (
                        scope as int,
                        name,
                    ),
            },
            r is None <==> !self@.binds.contains_key((scope as int, name)),
    {
        let mut i: usize = 0;
        while i < self.bindings.len()
            invariant
                self.wf(),
                i <= self.bindings@.len(),
                forall|k: int|
                    0 <= k < i ==> key(#[trigger] self.bindings@[k]) != (scope as int, name),
            decreases self.bindings@.len() - i,
        {
            let b = &self.bindings[i];
            if b.scope == scope && b.name == name {
                proof {
                    lemma_map_has(self.bindings@, i as int);
                }
                return Some(i);
            }
            i += 1;
        }
        proof {
            if self@.binds.contains_key((scope as int, name)) {
                lemma_map_dom(self.bindings@, (scope as int, name));
            }
        }
        None
    }

    /// The index of the variable that `name` means in `scope`.
    fn resolve(&self, scope: usize, name: SymbolId) -> (r: Option<usize>)
        requires
            self.wf(),
            scope < self@.parents.len(),
        ensures
            match r {
                Some(k) => k < self.bindings@.len() && self.bindings@[k as int].name == name
                    && self@.owner(scope as int, name) == Some(self.bindings@[k as int].scope as int),
                None => self@.owner(scope as int, name) is None,
            },
    {
        proof {
            self.lemma_parents_back();
        }
        let mut cur = scope;
        loop
            invariant
                self.wf(),
                cur < self@.parents.len(),
                self@.owner(scope as int, name) == self@.owner(cur as int, name),
                forall|s: int|
                    0 <= s < self.parents@.len() ==> match #[trigger] self.parents@[s] {
                        Some(p) => p < s,
                        None => true,
                    },
            decreases cur,
        {
            match self.find(cur, name) {
                Some(k) => {
                    return Some(k);
                },
                None => {},
            }
            assert(self@.parents[cur as int] == match self.parents@[cur as int] {
                Some(q) => Some(q as int),
                None => None::<int>,
            });
            match self.parents[cur] {
                Some(p) => {
                    assert(self.parents@[cur as int] == Some(p));
                    cur = p;
                },
                None => {
                    return None;
                },
            }
        }
    }

    /// Defines `name` in `scope`, which must not define it already.
    pub fn def(&mut self, scope: ScopeId, name: SymbolId, value: V) -> (r: Result<(), RuntimeError>)
        requires
            old(self).wf(),
            old(self)@.has_scope(scope.index()),
        ensures
            final(self).wf(),
            final(self)@.parents == old(self)@.parents,
            old(self)@.binds.contains_key((scope.index(), name)) ==> r == Err::<(), RuntimeError>(
                RuntimeError::AlreadyDefinedVariable,
            ) && final(self)@.binds == old(self)@.binds,
            !old(self)@.binds.contains_key((scope.index(), name)) ==> r is Ok && final(self)@
                == old(self)@.bind(scope.index(), name, value),
    {
        if self.find(scope.0, name).is_some() {
            return Err(RuntimeError::AlreadyDefinedVariable);
        }
        let ghost bs = self.bindings@;
        let b = Binding { scope: scope.0, name, value };
        self.bindings.push(b);
        proof {
            assert(self.bindings@.drop_last() =~= bs);
            assert(self.bindings@.last() == b);
            assert(unique(self.bindings@)) by {
                assert forall|i: int, j: int|
                    0 <= i < j < self.bindings@.len() implies key(#[trigger] self.bindings@[i])
                    != key(#[trigger] self.bindings@[j]) by {
                    assert(self.bindings@[i] == bs[i]);
                    if j < bs.len() {
                        assert(self.bindings@[j] == bs[j]);
                    }
                }
            }
            assert forall|k: int| 0 <= k < self.bindings@.len() implies (
            #[trigger] self.bindings@[k]).scope < self.parents@.len() by {
                if k < bs.len() {
                    assert(self.bindings@[k] == bs[k]);
                }
            }
            old(self).lemma_parents_back();
            self.lemma_view_wf();
        }
        Ok(())
    }

    /// Assigns `value` to the variable that `name` means in `scope`.
    pub fn set(&mut self, scope: ScopeId, name: SymbolId, value: V) -> (r: Result<(), RuntimeError>)
        requires
            old(self).wf(),
            old(self)@.has_scope(scope.index()),
        ensures
            final(self).wf(),
            final(self)@.parents == old(self)@.parents,
            match old(self)@.owner(scope.index(), name) {
                Some(f) => r is Ok && final(self)@ == old(self)@.bind(f, name, value),
                None => r == Err::<(), RuntimeError>(RuntimeError::UndefinedVariable)
                    && final(self)@.binds == old(self)@.binds,
            },
    {
        match self.resolve(scope.0, name) {
            Some(k) => {
                let ghost bs = self.bindings@;
                let s = self.bindings[k].scope;
                let b = Binding { scope: s, name, value };
                self.bindings.set(k, b);
                proof {
                    lemma_map_update(bs, k as int, b);
                    assert(unique(self.bindings@)) by {
                        assert forall|i: int, j: int|
                            0 <= i < j < self.bindings@.len() implies key(
                            #[trigger] self.bindings@[i],
                        ) != key(#[trigger] self.bindings@[j]) by {
                            assert(key(self.bindings@[i]) == key(bs[i]));
                            assert(key(self.bindings@[j]) == key(bs[j]));
                        }
                    }
                    assert forall|i: int| 0 <= i < self.bindings@.len() implies (
                    #[trigger] self.bindings@[i]).scope < self.parents@.len() by {
                        assert(self.bindings@[i].scope == bs[i].scope);
                    }
                    old(self).lemma_parents_back();
                    self.lemma_view_wf();
                }
                Ok(())
            },
            None => Err(RuntimeError::UndefinedVariable),
        }
    }

    /// The value of the variable that `name` means in `scope`.
    pub fn get(&self, scope: ScopeId, name: SymbolId) -> (r: Result<&V, RuntimeError>)
        requires
            self.wf(),
            self@.has_scope(scope.index()),
        ensures
            r is Ok <==> self@.lookup(scope.index(), name) is Some,
            r is Ok ==> self@.lookup(scope.index(), name) == Some(*r->Ok_0),
            r is Err ==> r->Err_0 == RuntimeError::UndefinedVariable,
    {
        match self.resolve(scope.0, name) {
            Some(k) => {
                proof {
                    lemma_map_has(self.bindings@, k as int);
                }
                Ok(&self.bindings[k].value)
            },
            None => Err(RuntimeError::UndefinedVariable),
        }
    }
}

} // verus!
