use crate::expression::{ExpressionId, SymbolId};
use crate::runtime::environment::ScopeId;
use crate::runtime::session::ParamRange;
use vstd::prelude::*;
use vstd::string::{StrSliceExecFns, StringExecFns};

verus! {

/// A list of a heap, known by its index.
#[derive(Debug, Clone, Copy, PartialEq, Eq, Structural)]
pub struct ListId(pub usize);

/// A text of a heap, known by its index.
#[derive(Debug, Clone, Copy, PartialEq, Eq, Structural)]
pub struct TextId(pub usize);

/// A function written in the language, with the scope it was made in.
#[derive(Debug, Clone, Copy, PartialEq)]
pub struct UserFn {
    pub req_params: ParamRange,
    pub rest_param: Option<SymbolId>,
    pub body: ExpressionId,
    pub env: ScopeId,
}

/// A value of a running program. Lists and texts live in a `Heap`; a
/// number with a fraction is held as the shortest text that reads back as
/// it (as `{:?}` prints an `f64`), and a function given by the host as its
/// index in the host's table of builtins.
#[derive(Debug, Clone, Copy, PartialEq)]
pub enum RtValue {
    Null,
    Symbol(SymbolId),
    List(ListId),
    Boolean(bool),
    Integer(i64),
    Float(TextId),
    String(TextId),
    Builtin(usize),
    UserFn(UserFn),
}

/// The lists and texts that values refer to. A list refers only to lists
/// made before it.
pub struct Heap {
    lists: Vec<Vec<RtValue>>,
    texts: Vec<String>,
}

/// Whether the ids in `v` are those of the lists `ls` below `bound` and of
/// the texts `ts`.
pub open spec fn held(ls: Seq<Seq<RtValue>>, ts: Seq<Seq<char>>, v: RtValue, bound: int) -> bool {
    match v {
        RtValue::List(id) => id.0 < bound && bound <= ls.len(),
        RtValue::Float(t) => t.0 < ts.len(),
        RtValue::String(t) => t.0 < ts.len(),
        _ => true,
    }
}

impl Heap {
    /// The items of each list, in order of making.
    pub closed spec fn lists(&self) -> Seq<Seq<RtValue>> {
        self.lists@.map_values(|v: Vec<RtValue>| v@)
    }

    /// Each text, in order of making.
    pub closed spec fn texts(&self) -> Seq<Seq<char>> {
        self.texts@.map_values(|s: String| s@)
    }

    /// Whether `v` refers only to lists and texts of this heap.
    pub open spec fn holds(&self, v: RtValue) -> bool {
        held(self.lists(), self.texts(), v, self.lists().len() as int)
    }

    /// Every list refers only to lists made before it, and to texts of the heap.
    pub open spec fn wf(&self) -> bool {
        forall|k: int, j: int|
            0 <= k < self.lists().len() && 0 <= j < self.lists()[k].len() ==> held(
                self.lists(),
                self.texts(),
                #[trigger] self.lists()[k][j],
                k,
            )
    }

    pub fn new() -> (r: Self)
        ensures
            r.wf(),
            r.lists() == Seq::<Seq<RtValue>>::empty(),
            r.texts() == Seq::<Seq<char>>::empty(),
    {
        let r = Heap { lists: Vec::new(), texts: Vec::new() };
        assert(r.lists() =~= Seq::<Seq<RtValue>>::empty());
        assert(r.texts() =~= Seq::<Seq<char>>::empty());
        r
    }

    /// Makes a list of `items`.
    pub fn push_list(&mut self, items: Vec<RtValue>) -> (r: RtValue)
        requires
            old(self).wf(),
            forall|j: int| 0 <= j < items@.len() ==> old(self).holds(#[trigger] items@[j]),
        ensures
            final(self).wf(),
            final(self).lists() == old(self).lists().push(items@),
            final(self).texts() == old(self).texts(),
            r == RtValue::List(ListId(old(self).lists().len() as usize)),
    {
        let id = self.lists.len();
        let ghost ls = self.lists();
        self.lists.push(items);
        proof {
            assert(self.lists() =~= ls.push(items@));
            assert(self.texts() =~= old(self).texts());
            assert forall|k: int, j: int|
                0 <= k < self.lists().len() && 0 <= j < self.lists()[k].len() implies held(
                self.lists(),
                self.texts(),
                #[trigger] self.lists()[k][j],
                k,
            ) by {
                if k < ls.len() {
                    assert(self.lists()[k] == ls[k]);
                    assert(held(ls, self.texts(), ls[k][j], k));
                } else {
                    assert(old(self).holds(items@[j]));
                }
            }
        }
        RtValue::List(ListId(id))
    }

    fn push_text(&mut self, text: &str) -> (r: TextId)
        requires
            old(self).wf(),
        ensures
            final(self).wf(),
            final(self).lists() == old(self).lists(),
            final(self).texts() == old(self).texts().push(text@),
            r == TextId(old(self).texts().len() as usize),
    {
        let id = self.texts.len();
        let ghost ts = self.texts();
        self.texts.push(text.to_owned());
        proof {
            assert(self.texts() =~= ts.push(text@));
            assert(self.lists() =~= old(self).lists());
            assert forall|k: int, j: int|
                0 <= k < self.lists().len() && 0 <= j < self.lists()[k].len() implies held(
                self.lists(),
                self.texts(),
                #[trigger] self.lists()[k][j],
                k,
            ) by {
                assert(held(old(self).lists(), ts, old(self).lists()[k][j], k));
            }
        }
        TextId(id)
    }

    /// A string value with the text `text`.
    pub fn push_string(&mut self, text: &str) -> (r: RtValue)
        requires
            old(self).wf(),
        ensures
            final(self).wf(),
            final(self).lists() == old(self).lists(),
            final(self).texts() == old(self).texts().push(text@),
            r == RtValue::String(TextId(old(self).texts().len() as usize)),
    {
        RtValue::String(self.push_text(text))
    }

    /// A number with a fraction, given by its shortest text.
    pub fn push_float(&mut self, text: &str) -> (r: RtValue)
        requires
            old(self).wf(),
        ensures
            final(self).wf(),
            final(self).lists() == old(self).lists(),
            final(self).texts() == old(self).texts().push(text@),
            r == RtValue::Float(TextId(old(self).texts().len() as usize)),
    {
        RtValue::Float(self.push_text(text))
    }

    /// The items of the list `id`.
    pub fn list(&self, id: ListId) -> (r: &[RtValue])
        requires
            id.0 < self.lists().len(),
        ensures
            r@ == self.lists()[id.0 as int],
    {
        self.lists[id.0].as_slice()
    }

    /// The text `id`.
    pub fn text(&self, id: TextId) -> (r: &str)
        requires
            id.0 < self.texts().len(),
        ensures
            r@ == self.texts()[id.0 as int],
    {
        self.texts[id.0].as_str()
    }
}

/// Whether an `f64` printed as `t` is zero.
pub open spec fn is_zero_text(t: Seq<char>) -> bool {
    t == "0.0"@ || t == "-0.0"@
}

/// Whether the numbers printed as `a` and `b` are equal as `f64`: the same
/// number but not a NaN, or two zeros.
pub open spec fn float_texts_equal(a: Seq<char>, b: Seq<char>) -> bool {
    (a == b && a != "NaN"@) || (is_zero_text(a) && is_zero_text(b))
}

/// Whether `v` counts as true in a condition.
pub open spec fn truthy(ls: Seq<Seq<RtValue>>, ts: Seq<Seq<char>>, v: RtValue) -> bool {
    match v {
        RtValue::Null => false,
        RtValue::Symbol(_) => true,
        RtValue::List(id) => ls[id.0 as int].len() > 0,
        RtValue::Boolean(b) => b,
        RtValue::Integer(i) => i != 0,
        RtValue::Float(t) => !is_zero_text(ts[t.0 as int]),
        RtValue::String(t) => ts[t.0 as int].len() > 0,
        RtValue::Builtin(_) => true,
        RtValue::UserFn(_) => true,
    }
}

fn str_is(s: &str, lit: &str) -> (r: bool)
    ensures
        r == (s@ == lit@),
{
    crate::text::str_eq(s, lit)
}

/// Whether `v` counts as true in a condition.
pub fn is_truthy(heap: &Heap, v: RtValue) -> (r: bool)
    requires
        heap.holds(v),
    ensures
        r == truthy(heap.lists(), heap.texts(), v),
{
    match v {
        RtValue::Null => false,
        RtValue::Symbol(_) => true,
        RtValue::List(id) => heap.list(id).len() > 0,
        RtValue::Boolean(b) => b,
        RtValue::Integer(i) => i != 0,
        RtValue::Float(t) => {
            let s = heap.text(t);
            proof {
                reveal_strlit("0.0");
                reveal_strlit("-0.0");
            }
            !(str_is(s, "0.0") || str_is(s, "-0.0"))
        },
        RtValue::String(t) => {
            let s = heap.text(t);
            s.unicode_len() > 0
        },
        RtValue::Builtin(_) => true,
        RtValue::UserFn(_) => true,
    }
}

} // verus!
