use crate::display::{int_text, push_i64};
use crate::span::Spanned;
use crate::text::str_eq;
use vstd::prelude::*;
use vstd::string::StringExecFns;

verus! {

pub type SSyntax = Spanned<Syntax>;

/// A node of a syntax tree; lists refer to their children by a range of
/// the store's child table. A floating-point literal is kept as its text.
#[derive(Debug, Clone, PartialEq)]
pub enum Syntax {
    Symbol(SymbolId),
    Integer(i64),
    Float(String),
    String(StringId),
    List(SyntaxRange),
}

#[derive(Debug, Clone, Copy, PartialEq, Eq, Hash)]
pub struct SyntaxId(pub(crate) u32);

impl SyntaxId {
    pub closed spec fn index(self) -> int {
        self.0 as int
    }
}

#[derive(Debug, Clone, Copy, PartialEq, Eq)]
pub struct SyntaxRange {
    start: u32,
    len: u32,
}

impl SyntaxRange {
    pub fn new(start: u32, len: u32) -> (r: Self)
        ensures
            r.start() == start,
            r.len() == len,
    {
        Self { start, len }
    }

    pub closed spec fn start(self) -> int {
        self.start as int
    }

    pub closed spec fn len(self) -> int {
        self.len as int
    }

    pub open spec fn end(self) -> int {
        self.start() + self.len()
    }
}

/// The syntax nodes of a tree and the child table their lists refer to.
#[derive(Debug, Clone, PartialEq)]
pub struct SyntaxStore {
    syntaxes: Vec<SSyntax>,
    children: Vec<SyntaxId>,
}

impl SyntaxStore {
    pub closed spec fn nodes(&self) -> Seq<SSyntax> {
        self.syntaxes@
    }

    pub closed spec fn child_table(&self) -> Seq<SyntaxId> {
        self.children@
    }

    pub fn new() -> (r: Self)
        ensures
            r.nodes() == Seq::<SSyntax>::empty(),
            r.child_table() == Seq::<SyntaxId>::empty(),
    {
        Self { syntaxes: Vec::new(), children: Vec::new() }
    }

    pub fn get(&self, id: SyntaxId) -> (r: &SSyntax)
        requires
            id.index() < self.nodes().len(),
        ensures
            *r == self.nodes()[id.index()],
    {
        &self.syntaxes[id.0 as usize]
    }

    pub fn children(&self, range: SyntaxRange) -> (r: &[SyntaxId])
        requires
            range.end() <= self.child_table().len(),
        ensures
            r@ == self.child_table().subrange(range.start(), range.end()),
    {
        let start = range.start as usize;
        assert(start + range.len as usize <= self.children.len());
        slice_subrange(self.children.as_slice(), start, start + range.len as usize)
    }

    pub fn push(&mut self, node: SSyntax) -> (r: SyntaxId)
        requires
            old(self).nodes().len() < u32::MAX,
        ensures
            final(self).nodes() == old(self).nodes().push(node),
            final(self).child_table() == old(self).child_table(),
            r.index() == old(self).nodes().len(),
    {
        self.syntaxes.push(node);
        SyntaxId((self.syntaxes.len() - 1) as u32)
    }

    pub fn push_children(&mut self, children: &[SyntaxId]) -> (r: SyntaxRange)
        requires
            old(self).child_table().len() + children@.len() <= u32::MAX,
        ensures
            final(self).nodes() == old(self).nodes(),
            final(self).child_table() == old(self).child_table() + children@,
            r.start() == old(self).child_table().len(),
            r.len() == children@.len(),
    {
        let range = SyntaxRange { start: self.children.len() as u32, len: children.len() as u32 };
        let mut i: usize = 0;
        while i < children.len()
            invariant
                0 <= i <= children@.len(),
                self.syntaxes@ == old(self).syntaxes@,
                self.children@ == old(self).children@ + children@.take(i as int),
            decreases children@.len() - i,
        {
            self.children.push(children[i]);
            i = i + 1;
            assert(children@.take(i as int) =~= children@.take(i - 1).push(children@[i - 1]));
        }
        assert(children@.take(children@.len() as int) =~= children@);
        range
    }
}

pub broadcast proof fn lemma_syntax_id_bounds(id: SyntaxId)
    ensures
        0 <= #[trigger] id.index() <= u32::MAX,
{
}

pub broadcast proof fn lemma_symbol_id_bounds(id: SymbolId)
    ensures
        0 <= #[trigger] id.index() <= u32::MAX,
{
}

pub broadcast proof fn lemma_string_id_bounds(id: StringId)
    ensures
        0 <= #[trigger] id.index() <= u32::MAX,
{
}

pub broadcast proof fn lemma_range_bounds(r: SyntaxRange)
    ensures
        0 <= #[trigger] r.start() <= u32::MAX,
        0 <= #[trigger] r.len() <= u32::MAX,
{
}

pub broadcast group group_id_bounds {
    lemma_syntax_id_bounds,
    lemma_symbol_id_bounds,
    lemma_string_id_bounds,
    lemma_range_bounds,
}

/// `&s[start..end]`.
pub fn slice_subrange<T>(s: &[T], start: usize, end: usize) -> (r: &[T])
    requires
        start <= end <= s@.len(),
    ensures
        r@ == s@.subrange(start as int, end as int),
{
    vstd::slice::slice_subrange(s, start, end)
}

#[derive(Debug, Clone, Copy, PartialEq, Eq, Hash)]
pub struct SymbolId(pub(crate) u32);

impl SymbolId {
    pub closed spec fn index(self) -> int {
        self.0 as int
    }
}

/// Interned names: each name is stored once and known by its index.
#[derive(Debug, Clone, PartialEq)]
pub struct SymbolStore {
    id_to_name: Vec<String>,
}

impl SymbolStore {
    pub closed spec fn names(&self) -> Seq<Seq<char>> {
        self.id_to_name@.map_values(|s: String| s@)
    }

    /// No name is stored twice, and every id fits in `u32`.
    pub open spec fn wf(&self) -> bool {
        &&& self.names().no_duplicates()
        &&& self.names().len() <= u32::MAX + 1
    }

    pub fn new() -> (r: Self)
        ensures
            r.names() == Seq::<Seq<char>>::empty(),
            r.wf(),
    {
        let r = Self { id_to_name: Vec::new() };
        assert(r.names() =~= Seq::<Seq<char>>::empty());
        r
    }

    /// The id of `name`, storing it first if it is new.
    pub fn push(&mut self, name: &str) -> (r: SymbolId)
        requires
            old(self).wf(),
            old(self).names().contains(name@) || old(self).names().len() <= u32::MAX,
        ensures
            final(self).wf(),
            old(self).names().contains(name@) ==> final(self).names() == old(self).names(),
            !old(self).names().contains(name@) ==> final(self).names() == old(self).names().push(
                name@,
            ) && r.index() == old(self).names().len(),
            0 <= r.index() < final(self).names().len(),
            final(self).names()[r.index()] == name@,
    {
        let mut i: usize = 0;
        while i < self.id_to_name.len()
            invariant
                0 <= i <= self.id_to_name.len(),
                self.id_to_name@.len() == self.names().len(),
                self.id_to_name@ == old(self).id_to_name@,
                self.wf(),
                old(self).names().contains(name@) || self.names().len() <= u32::MAX,
                forall|k: int| 0 <= k < i ==> self.names()[k] != name@,
            decreases self.id_to_name.len() - i,
        {
            if str_eq(self.id_to_name[i].as_str(), name) {
                assert(self.names()[i as int] == name@);
                return SymbolId(i as u32);
            }
            i = i + 1;
        }
        let ghost before = self.names();
        let id = SymbolId(self.id_to_name.len() as u32);
        self.id_to_name.push(name.to_owned());
        proof {
            assert(self.names() =~= before.push(name@));
            assert forall|a: int, b: int|
                0 <= a < b < self.names().len() implies self.names()[a] != self.names()[b] by {
                if b < before.len() {
                    assert(before[a] != before[b]);
                }
            }
        }
        id
    }

    pub fn get(&self, id: SymbolId) -> (r: &str)
        requires
            id.index() < self.names().len(),
        ensures
            r@ == self.names()[id.index()],
    {
        self.id_to_name[id.0 as usize].as_str()
    }
}

#[derive(Debug, Clone, Copy, PartialEq, Eq, Hash)]
pub struct StringId(pub(crate) u32);

impl StringId {
    pub closed spec fn index(self) -> int {
        self.0 as int
    }
}

/// String literals, each known by its index.
#[derive(Debug, Clone, PartialEq)]
pub struct StringStore {
    strings: Vec<String>,
}

impl StringStore {
    pub closed spec fn values(&self) -> Seq<Seq<char>> {
        self.strings@.map_values(|s: String| s@)
    }

    pub fn new() -> (r: Self)
        ensures
            r.values() == Seq::<Seq<char>>::empty(),
    {
        let r = Self { strings: Vec::new() };
        assert(r.values() =~= Seq::<Seq<char>>::empty());
        r
    }

    pub fn push(&mut self, value: String) -> (r: StringId)
        requires
            old(self).values().len() <= u32::MAX,
        ensures
            final(self).values() == old(self).values().push(value@),
            r.index() == old(self).values().len(),
    {
        let id = StringId(self.strings.len() as u32);
        let ghost before = self.values();
        self.strings.push(value);
        assert(self.values() =~= before.push(value@));
        id
    }

    pub fn get(&self, id: StringId) -> (r: &str)
        requires
            id.index() < self.values().len(),
        ensures
            r@ == self.values()[id.index()],
    {
        self.strings[id.0 as usize].as_str()
    }
}

/// The mathematical value of a syntax tree: names, literals and texts in
/// place of the ids that refer to them.
pub enum SyntaxV {
    Symbol(Seq<char>),
    Integer(i64),
    Float(Seq<char>),
    String(Seq<char>),
    List(Seq<Spanned<SyntaxV>>),
}

pub type SSyntaxV = Spanned<SyntaxV>;

/// Whether the node `v`, stored at index `i`, refers only to what exists:
/// names and strings by their ids, children by a range of the child table
/// whose entries are all earlier nodes.
pub open spec fn node_ok(v: Syntax, i: int, table: Seq<SyntaxId>, n_names: int, n_strings: int) -> bool {
    match v {
        Syntax::Symbol(s) => 0 <= s.index() < n_names,
        Syntax::String(s) => 0 <= s.index() < n_strings,
        Syntax::List(r) => {
            &&& 0 <= r.start()
            &&& r.end() <= table.len()
            &&& forall|k: int| r.start() <= k < r.end() ==> 0 <= #[trigger] table[k].index() < i
        },
        _ => true,
    }
}

pub open spec fn store_wf(nodes: Seq<SSyntax>, table: Seq<SyntaxId>, n_names: int, n_strings: int) -> bool {
    forall|i: int| 0 <= i < nodes.len() ==> node_ok(#[trigger] nodes[i].value, i, table, n_names, n_strings)
}

pub open spec fn default_syntax() -> SSyntaxV {
    Spanned { value: SyntaxV::Integer(0), span: crate::span::Span { start: 0, end: 0 } }
}

/// The tree rooted at node `id`.
pub open spec fn syntax_view(
    nodes: Seq<SSyntax>,
    table: Seq<SyntaxId>,
    names: Seq<Seq<char>>,
    strings: Seq<Seq<char>>,
    id: int,
) -> SSyntaxV
    decreases id, 1int, 0int,
{
    if 0 <= id < nodes.len() {
        let n = nodes[id];
        Spanned {
            value: match n.value {
                Syntax::Symbol(s) => SyntaxV::Symbol(names[s.index()]),
                Syntax::Integer(v) => SyntaxV::Integer(v),
                Syntax::Float(t) => SyntaxV::Float(t@),
                Syntax::String(s) => SyntaxV::String(strings[s.index()]),
                Syntax::List(r) => SyntaxV::List(
                    children_view(nodes, table, names, strings, id, r.start(), r.len()),
                ),
            },
            span: n.span,
        }
    } else {
        default_syntax()
    }
}

/// The trees rooted at the `len` nodes listed in the child table from
/// `start`, which must all come before node `parent`.
pub open spec fn children_view(
    nodes: Seq<SSyntax>,
    table: Seq<SyntaxId>,
    names: Seq<Seq<char>>,
    strings: Seq<Seq<char>>,
    parent: int,
    start: int,
    len: int,
) -> Seq<SSyntaxV>
    decreases parent, 0int, len,
{
    if len <= 0 {
        Seq::empty()
    } else {
        let c = table[start].index();
        let first = if 0 <= c < parent {
            syntax_view(nodes, table, names, strings, c)
        } else {
            default_syntax()
        };
        seq![first] + children_view(nodes, table, names, strings, parent, start + 1, len - 1)
    }
}

/// Growing the stores leaves the trees of existing nodes as they were.
pub proof fn lemma_syntax_view_frame(
    nodes: Seq<SSyntax>,
    table: Seq<SyntaxId>,
    names: Seq<Seq<char>>,
    strings: Seq<Seq<char>>,
    nodes2: Seq<SSyntax>,
    table2: Seq<SyntaxId>,
    names2: Seq<Seq<char>>,
    strings2: Seq<Seq<char>>,
    id: int,
)
    requires
        store_wf(nodes, table, names.len() as int, strings.len() as int),
        nodes.is_prefix_of(nodes2),
        table.is_prefix_of(table2),
        names.is_prefix_of(names2),
        strings.is_prefix_of(strings2),
        0 <= id < nodes.len(),
    ensures
        syntax_view(nodes2, table2, names2, strings2, id) == syntax_view(
            nodes,
            table,
            names,
            strings,
            id,
        ),
    decreases id, 1int, 0int,
{
    assert(nodes2[id] == nodes[id]);
    assert(node_ok(nodes[id].value, id, table, names.len() as int, strings.len() as int));
    match nodes[id].value {
        Syntax::Symbol(s) => {
            assert(names2[s.index()] == names[s.index()]);
        },
        Syntax::String(s) => {
            assert(strings2[s.index()] == strings[s.index()]);
        },
        Syntax::List(r) => {
            lemma_children_view_frame(
                nodes,
                table,
                names,
                strings,
                nodes2,
                table2,
                names2,
                strings2,
                id,
                r.start(),
                r.len(),
            );
        },
        _ => {},
    }
}

pub proof fn lemma_children_view_frame(
    nodes: Seq<SSyntax>,
    table: Seq<SyntaxId>,
    names: Seq<Seq<char>>,
    strings: Seq<Seq<char>>,
    nodes2: Seq<SSyntax>,
    table2: Seq<SyntaxId>,
    names2: Seq<Seq<char>>,
    strings2: Seq<Seq<char>>,
    parent: int,
    start: int,
    len: int,
)
    requires
        store_wf(nodes, table, names.len() as int, strings.len() as int),
        nodes.is_prefix_of(nodes2),
        table.is_prefix_of(table2),
        names.is_prefix_of(names2),
        strings.is_prefix_of(strings2),
        0 <= parent <= nodes.len(),
        0 <= start,
        start + len <= table.len(),
        forall|k: int| start <= k < start + len ==> 0 <= #[trigger] table[k].index() < parent,
    ensures
        children_view(nodes2, table2, names2, strings2, parent, start, len) == children_view(
            nodes,
            table,
            names,
            strings,
            parent,
            start,
            len,
        ),
    decreases parent, 0int, len,
{
    if len > 0 {
        assert(table2[start] == table[start]);
        let c = table[start].index();
        assert(0 <= c < parent);
        lemma_syntax_view_frame(
            nodes,
            table,
            names,
            strings,
            nodes2,
            table2,
            names2,
            strings2,
            c,
        );
        lemma_children_view_frame(
            nodes,
            table,
            names,
            strings,
            nodes2,
            table2,
            names2,
            strings2,
            parent,
            start + 1,
            len - 1,
        );
    }
}

/// The trees of a range of the child table are those of the ids listed there.
pub proof fn lemma_children_view_ids(
    nodes: Seq<SSyntax>,
    table: Seq<SyntaxId>,
    names: Seq<Seq<char>>,
    strings: Seq<Seq<char>>,
    parent: int,
    start: int,
    len: int,
)
    requires
        0 <= start,
        0 <= len,
        start + len <= table.len(),
        forall|k: int| start <= k < start + len ==> 0 <= #[trigger] table[k].index() < parent,
    ensures
        children_view(nodes, table, names, strings, parent, start, len) =~= Seq::new(
            len as nat,
            |k: int| syntax_view(nodes, table, names, strings, table[start + k].index()),
        ),
    decreases len,
{
    if len > 0 {
        lemma_children_view_ids(nodes, table, names, strings, parent, start + 1, len - 1);
        assert(0 <= table[start].index() < parent);
    }
}

/// How a syntax tree is shown: its variant, then its parts in brackets,
/// names and strings quoted. A floating-point literal shows its text.
pub open spec fn syntax_text(v: SSyntaxV) -> Seq<char>
    decreases v, 0int,
{
    match v.value {
        SyntaxV::Symbol(t) => "Symbol(\""@ + t + "\")"@,
        SyntaxV::Integer(i) => "Integer("@ + int_text(i as int) + ")"@,
        SyntaxV::Float(t) => "Float("@ + t + ")"@,
        SyntaxV::String(t) => "String(\""@ + t + "\")"@,
        SyntaxV::List(items) => "List("@ + items_text(items, items.len() as int) + ")"@,
    }
}

/// The first `n` trees of `vs`, shown and separated by `, `.
pub open spec fn items_text(vs: Seq<SSyntaxV>, n: int) -> Seq<char>
    decreases vs, n,
{
    if n <= 0 || n > vs.len() {
        Seq::empty()
    } else if n == 1 {
        syntax_text(vs[0])
    } else {
        items_text(vs, n - 1) + ", "@ + syntax_text(vs[n - 1])
    }
}

/// The first `n` trees of `vs`, each shown on a line of its own.
pub open spec fn lines_text(vs: Seq<SSyntaxV>, n: int) -> Seq<char>
    decreases n,
{
    if n <= 0 || n > vs.len() {
        Seq::empty()
    } else {
        lines_text(vs, n - 1) + syntax_text(vs[n - 1]) + "\n"@
    }
}

/// A parsed text: the roots and the stores they refer to.
#[derive(Debug, Clone, PartialEq)]
pub struct SyntaxTree {
    pub roots: SyntaxRange,
    pub syntaxes: SyntaxStore,
    pub symbols: SymbolStore,
    pub strings: StringStore,
}

impl SyntaxTree {
    /// The stores are consistent and the roots name existing nodes.
    pub open spec fn wf(&self) -> bool {
        &&& store_wf(
            self.syntaxes.nodes(),
            self.syntaxes.child_table(),
            self.symbols.names().len() as int,
            self.strings.values().len() as int,
        )
        &&& self.symbols.wf()
        &&& 0 <= self.roots.start()
        &&& self.roots.end() <= self.syntaxes.child_table().len()
        &&& forall|k: int|
            self.roots.start() <= k < self.roots.end() ==> 0
                <= #[trigger] self.syntaxes.child_table()[k].index() < self.syntaxes.nodes().len()
    }

    /// The tree rooted at node `id`.
    pub open spec fn node_view(&self, id: int) -> SSyntaxV {
        syntax_view(
            self.syntaxes.nodes(),
            self.syntaxes.child_table(),
            self.symbols.names(),
            self.strings.values(),
            id,
        )
    }

    /// Appends how node `id` is shown to `out`.
    pub fn format_syntax(&self, id: SyntaxId, out: &mut String)
        requires
            self.wf(),
            id.index() < self.syntaxes.nodes().len(),
        ensures
            final(out)@ == old(out)@ + syntax_text(self.node_view(id.index())),
        decreases id.index(),
    {
        let node = self.syntaxes.get(id);
        assert(node_ok(
            self.syntaxes.nodes()[id.index()].value,
            id.index(),
            self.syntaxes.child_table(),
            self.symbols.names().len() as int,
            self.strings.values().len() as int,
        ));
        match &node.value {
            Syntax::Symbol(v) => {
                out.append("Symbol(\"");
                out.append(self.symbols.get(*v));
                out.append("\")");
            },
            Syntax::Integer(v) => {
                out.append("Integer(");
                push_i64(out, *v);
                out.append(")");
            },
            Syntax::Float(t) => {
                out.append("Float(");
                out.append(t.as_str());
                out.append(")");
            },
            Syntax::String(v) => {
                out.append("String(\"");
                out.append(self.strings.get(*v));
                out.append("\")");
            },
            Syntax::List(range) => {
                let children = self.syntaxes.children(*range);
                let ghost items = children_view(
                    self.syntaxes.nodes(),
                    self.syntaxes.child_table(),
                    self.symbols.names(),
                    self.strings.values(),
                    id.index(),
                    range.start(),
                    range.len(),
                );
                proof {
                    lemma_children_view_ids(
                        self.syntaxes.nodes(),
                        self.syntaxes.child_table(),
                        self.symbols.names(),
                        self.strings.values(),
                        id.index(),
                        range.start(),
                        range.len(),
                    );
                }
                out.append("List(");
                let ghost start = out@;
                let mut i: usize = 0;
                while i < children.len()
                    invariant
                        self.wf(),
                        id.index() < self.syntaxes.nodes().len(),
                        children@ == self.syntaxes.child_table().subrange(range.start(), range.end()),
                        0 <= range.start(),
                        range.end() <= self.syntaxes.child_table().len(),
                        forall|k: int| range.start() <= k < range.end() ==> 0
                            <= #[trigger] self.syntaxes.child_table()[k].index() < id.index(),
                        items =~= Seq::new(
                            range.len() as nat,
                            |k: int| self.node_view(self.syntaxes.child_table()[range.start() + k].index()),
                        ),
                        0 <= i <= children@.len(),
                        out@ == start + items_text(items, i as int),
                    decreases children@.len() - i,
                {
                    if i > 0 {
                        out.append(", ");
                    }
                    assert(children@[i as int] == self.syntaxes.child_table()[range.start() + i]);
                    self.format_syntax(children[i], out);
                    assert(out@ =~= start + items_text(items, i + 1));
                    i = i + 1;
                }
                out.append(")");
            },
        }
        assert(out@ =~= old(out)@ + syntax_text(self.node_view(id.index())));
    }

    /// How all the roots are shown, each on a line of its own.
    pub fn to_debug_string(&self) -> (r: String)
        requires
            self.wf(),
        ensures
            r@ == lines_text(self.roots_view(), self.roots.len()),
    {
        let roots = self.syntaxes.children(self.roots);
        let ghost vs = self.roots_view();
        proof {
            lemma_children_view_ids(
                self.syntaxes.nodes(),
                self.syntaxes.child_table(),
                self.symbols.names(),
                self.strings.values(),
                self.syntaxes.nodes().len() as int,
                self.roots.start(),
                self.roots.len(),
            );
        }
        let mut out = String::new();
        let mut i: usize = 0;
        while i < roots.len()
            invariant
                self.wf(),
                roots@ == self.syntaxes.child_table().subrange(self.roots.start(), self.roots.end()),
                vs =~= Seq::new(
                    self.roots.len() as nat,
                    |k: int| self.node_view(self.syntaxes.child_table()[self.roots.start() + k].index()),
                ),
                0 <= i <= roots@.len(),
                out@ == lines_text(vs, i as int),
            decreases roots@.len() - i,
        {
            assert(roots@[i as int] == self.syntaxes.child_table()[self.roots.start() + i]);
            self.format_syntax(roots[i], &mut out);
            out.append("\n");
            assert(out@ =~= lines_text(vs, i + 1));
            i = i + 1;
        }
        out
    }

    /// The trees of the top-level expressions, in order.
    pub open spec fn roots_view(&self) -> Seq<SSyntaxV> {
        children_view(
            self.syntaxes.nodes(),
            self.syntaxes.child_table(),
            self.symbols.names(),
            self.strings.values(),
            self.syntaxes.nodes().len() as int,
            self.roots.start(),
            self.roots.len(),
        )
    }
}

/// Interning gives each name a single id: pushing a name that is already
/// stored gives the id it got before and leaves the names as they were.
pub proof fn law_intern_once(
    first: SymbolStore,
    a: SymbolId,
    second: SymbolStore,
    b: SymbolId,
    name: Seq<char>,
)
    requires
        first.wf(),
        0 <= a.index() < first.names().len(),
        first.names()[a.index()] == name,
        first.names().contains(name) ==> second.names() == first.names(),
        0 <= b.index() < second.names().len(),
        second.names()[b.index()] == name,
    ensures
        a == b,
        second.names() == first.names(),
{
    assert(first.names().contains(name));
    assert(first.names().no_duplicates());
}

/// In a well-formed store, ids and names go one to one: two ids name the
/// same text exactly when they are the same id.
pub proof fn law_store_ids_one_to_one(s: SymbolStore, a: SymbolId, b: SymbolId)
    requires
        s.wf(),
        0 <= a.index() < s.names().len(),
        0 <= b.index() < s.names().len(),
    ensures
        (a == b) <==> (s.names()[a.index()] == s.names()[b.index()]),
{
    if a.index() == b.index() {
        assert(a.0 == b.0);
    }
}

/// Pushing further names keeps what every earlier id names: a store whose
/// names extend those of another (as every `push` leaves them) gives each old
/// id the same name.
pub proof fn law_store_names_kept(before: SymbolStore, after: SymbolStore, id: SymbolId)
    requires
        before.names().is_prefix_of(after.names()),
        0 <= id.index() < before.names().len(),
    ensures
        id.index() < after.names().len(),
        after.names()[id.index()] == before.names()[id.index()],
{
}

/// Pushing further strings keeps what every earlier id gives: a store whose
/// values extend those of another (as every `push` leaves them) gives each
/// old id the same text.
pub proof fn law_strings_kept(before: StringStore, after: StringStore, id: StringId)
    requires
        before.values().is_prefix_of(after.values()),
        0 <= id.index() < before.values().len(),
    ensures
        id.index() < after.values().len(),
        after.values()[id.index()] == before.values()[id.index()],
{
}

} // verus!
