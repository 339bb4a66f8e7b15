use crate::expression::{
    interned_in, ExpressionId, ExpressionRange, SExpression, SymbolId, SymbolTable,
};
use crate::text::{byte_len, byte_pos, chars_of, lemma_byte_pos_step, utf8_width};
use crate::util::{Arena, ArenaId};
use vstd::prelude::*;
use vstd::string::{StrSliceExecFns, StringExecFns};

verus! {

/// Everything a parsed program refers to by id: expressions, names,
/// parameter lists and string texts.
#[derive(Clone)]
pub struct Session {
    expressions: Arena<SExpression>,
    symbols: SymbolTable,
    params: Vec<SymbolId>,
    strings: String,
    offsets: Vec<usize>,
}

/// A byte range `start..end` of a session's string texts.
#[derive(Debug, Clone, Copy, PartialEq)]
pub struct StringRange(usize, usize);

impl StringRange {
    pub closed spec fn start(self) -> int {
        self.0 as int
    }

    pub closed spec fn end(self) -> int {
        self.1 as int
    }

    pub fn new(start: usize, end: usize) -> (r: Self)
        ensures
            r.start() == start,
            r.end() == end,
    {
        Self(start, end)
    }
}

/// A range `start..end` of a session's parameter table.
#[derive(Debug, Clone, Copy, PartialEq)]
pub struct ParamRange(usize, usize);

impl ParamRange {
    pub closed spec fn start(self) -> int {
        self.0 as int
    }

    pub closed spec fn end(self) -> int {
        self.1 as int
    }

    pub fn new(start: usize, end: usize) -> (r: Self)
        ensures
            r.start() == start,
            r.end() == end,
    {
        Self(start, end)
    }

    /// How many parameters the range holds.
    pub fn len(&self) -> (r: usize)
        requires
            self.start() <= self.end(),
        ensures
            r == self.end() - self.start(),
    {
        self.1 - self.0
    }

    /// The first index of the range and the one past its end.
    pub fn bounds(&self) -> (r: (usize, usize))
        ensures
            r.0 == self.start(),
            r.1 == self.end(),
    {
        (self.0, self.1)
    }

    /// Whether the two ranges are the same.
    pub fn same(&self, other: &Self) -> (r: bool)
        ensures
            r == (*self == *other),
    {
        self.0 == other.0 && self.1 == other.1
    }
}

impl Session {
    pub closed spec fn expressions(&self) -> Seq<SExpression> {
        self.expressions.values()
    }

    pub closed spec fn expression_table(&self) -> Seq<ExpressionId> {
        self.expressions.child_table()
    }

    pub closed spec fn names(&self) -> Seq<Seq<char>> {
        self.symbols.names()
    }

    /// Which symbols are fresh.
    pub closed spec fn fresh_symbols(&self) -> Seq<bool> {
        self.symbols.fresh()
    }

    pub closed spec fn params(&self) -> Seq<SymbolId> {
        self.params@
    }

    /// All string texts, one after the other.
    pub closed spec fn text(&self) -> Seq<char> {
        self.strings@
    }

    pub closed spec fn wf(&self) -> bool {
        &&& self.symbols.wf()
        &&& self.offsets@.len() == self.strings@.len() + 1
        &&& forall|k: int|
            0 <= k < self.offsets@.len() ==> #[trigger] self.offsets@[k] == byte_pos(
                self.strings@,
                k,
            )
        &&& byte_len(self.strings@) < usize::MAX
    }

    pub fn new() -> (r: Self)
        ensures
            r.wf(),
            r.expressions() == Seq::<SExpression>::empty(),
            r.expression_table() == Seq::<ExpressionId>::empty(),
            r.names() == Seq::<Seq<char>>::empty(),
            r.fresh_symbols() == Seq::<bool>::empty(),
            r.params() == Seq::<SymbolId>::empty(),
            r.text() == Seq::<char>::empty(),
    {
        let mut offsets = Vec::new();
        offsets.push(0);
        let r = Session {
            expressions: Arena::new(),
            symbols: SymbolTable::new(),
            params: Vec::new(),
            strings: String::new(),
            offsets,
        };
        assert(r.strings@.take(0) =~= Seq::<char>::empty());
        r
    }

    /// How many expressions the session holds.
    pub fn n_expressions(&self) -> (r: usize)
        ensures
            r == self.expressions().len(),
    {
        self.expressions.len()
    }

    /// How many ids the child table holds.
    pub fn n_children(&self) -> (r: usize)
        ensures
            r == self.expression_table().len(),
    {
        self.expressions.n_children()
    }

    /// The length in bytes of all string texts.
    pub fn text_byte_len(&self) -> (r: usize)
        requires
            self.wf(),
        ensures
            r == byte_len(self.text()),
    {
        proof {
            assert(self.strings@.take(self.strings@.len() as int) =~= self.strings@);
        }
        self.offsets[self.offsets.len() - 1]
    }

    pub fn get_expression(&self, id: ExpressionId) -> (r: &SExpression)
        requires
            0 <= id.index() < self.expressions().len(),
        ensures
            *r == self.expressions()[id.index()],
    {
        self.expressions.get(id)
    }

    pub fn get_expressions(&self, range: ExpressionRange) -> (r: &[ArenaId<SExpression>])
        requires
            0 <= range.start(),
            0 <= range.len(),
            range.start() + range.len() <= self.expression_table().len(),
        ensures
            r@ == self.expression_table().subrange(range.start(), range.start() + range.len()),
    {
        self.expressions.get_children(range)
    }

    pub fn push_expression(&mut self, expression: SExpression) -> (r: ExpressionId)
        requires
            old(self).expressions().len() < u32::MAX,
        ensures
            final(self).expressions() == old(self).expressions().push(expression),
            final(self).expression_table() == old(self).expression_table(),
            final(self).names() == old(self).names(),
            final(self).fresh_symbols() == old(self).fresh_symbols(),
            final(self).params() == old(self).params(),
            final(self).text() == old(self).text(),
            final(self).wf() == old(self).wf(),
            r.index() == old(self).expressions().len(),
    {
        self.expressions.push(expression)
    }

    pub fn push_expressions(&mut self, expressions: &[ExpressionId]) -> (r: ExpressionRange)
        requires
            old(self).expression_table().len() + expressions@.len() <= u32::MAX,
        ensures
            final(self).expressions() == old(self).expressions(),
            final(self).expression_table() == old(self).expression_table() + expressions@,
            final(self).names() == old(self).names(),
            final(self).fresh_symbols() == old(self).fresh_symbols(),
            final(self).params() == old(self).params(),
            final(self).text() == old(self).text(),
            final(self).wf() == old(self).wf(),
            r.start() == old(self).expression_table().len(),
            r.len() == expressions@.len(),
    {
        self.expressions.push_children(expressions)
    }

    pub fn get_symbol(&self, id: SymbolId) -> (r: &str)
        requires
            0 <= id.index() < self.names().len(),
        ensures
            r@ == self.names()[id.index()],
    {
        self.symbols.get(id)
    }

    /// The id of `symbol`, interning the name first if it is new.
    pub fn push_symbol(&mut self, symbol: &str) -> (r: SymbolId)
        requires
            old(self).wf(),
        ensures
            final(self).wf(),
            interned_in(old(self).names(), old(self).fresh_symbols(), symbol@) ==> final(self).names()
                == old(self).names() && final(self).fresh_symbols() == old(self).fresh_symbols(),
            !interned_in(old(self).names(), old(self).fresh_symbols(), symbol@) ==> final(self).names()
                == old(self).names().push(symbol@) && final(self).fresh_symbols() == old(
                self,
            ).fresh_symbols().push(false),
            0 <= r.index() < final(self).names().len(),
            final(self).names()[r.index()] == symbol@,
            !final(self).fresh_symbols()[r.index()],
            final(self).expressions() == old(self).expressions(),
            final(self).expression_table() == old(self).expression_table(),
            final(self).params() == old(self).params(),
            final(self).text() == old(self).text(),
    {
        self.symbols.push(symbol)
    }

    /// A new symbol named `name`, distinct from every other symbol, even
    /// one with the same name.
    pub fn fresh_symbol(&mut self, name: &str) -> (r: SymbolId)
        requires
            old(self).wf(),
        ensures
            final(self).wf(),
            final(self).names() == old(self).names().push(name@),
            final(self).fresh_symbols() == old(self).fresh_symbols().push(true),
            r.index() == old(self).names().len(),
            final(self).expressions() == old(self).expressions(),
            final(self).expression_table() == old(self).expression_table(),
            final(self).params() == old(self).params(),
            final(self).text() == old(self).text(),
    {
        self.symbols.push_fresh(name)
    }

    pub fn get_n_params(&self) -> (r: usize)
        ensures
            r == self.params().len(),
    {
        self.params.len()
    }

    pub fn get_params(&self, range: ParamRange) -> (r: &[SymbolId])
        requires
            0 <= range.start() <= range.end() <= self.params().len(),
        ensures
            r@ == self.params().subrange(range.start(), range.end()),
    {
        vstd::slice::slice_subrange(self.params.as_slice(), range.0, range.1)
    }

    pub fn push_param(&mut self, param: SymbolId)
        ensures
            final(self).params() == old(self).params().push(param),
            final(self).expressions() == old(self).expressions(),
            final(self).expression_table() == old(self).expression_table(),
            final(self).names() == old(self).names(),
            final(self).fresh_symbols() == old(self).fresh_symbols(),
            final(self).text() == old(self).text(),
            final(self).wf() == old(self).wf(),
    {
        self.params.push(param);
    }

    /// The text between two character boundaries of the string texts, given
    /// as byte offsets.
    pub fn get_string(&self, range: StringRange) -> (r: &str)
        requires
            self.wf(),
            exists|i: int, j: int|
                0 <= i <= j <= self.text().len() && byte_pos(self.text(), i) == range.start()
                    && byte_pos(self.text(), j) == range.end(),
        ensures
            forall|i: int, j: int|
                0 <= i <= j <= self.text().len() && byte_pos(self.text(), i) == range.start()
                    && byte_pos(self.text(), j) == range.end() ==> r@ == self.text().subrange(
                    i,
                    j,
                ),
    {
        let ghost (i0, j0) = choose|i: int, j: int|
            0 <= i <= j <= self.text().len() && byte_pos(self.text(), i) == range.start()
                && byte_pos(self.text(), j) == range.end();
        let ci = self.char_index(range.0);
        let cj = self.char_index(range.1);
        proof {
            crate::text::lemma_byte_pos_mono(self.strings@, i0, j0);
            assert forall|i: int, j: int|
                0 <= i <= j <= self.text().len() && byte_pos(self.text(), i) == range.start()
                    && byte_pos(self.text(), j) == range.end() implies i == ci && j == cj by {
                if i < ci {
                    crate::text::lemma_byte_pos_mono(self.strings@, i, ci as int);
                } else if ci < i {
                    crate::text::lemma_byte_pos_mono(self.strings@, ci as int, i);
                }
                if j < cj {
                    crate::text::lemma_byte_pos_mono(self.strings@, j, cj as int);
                } else if cj < j {
                    crate::text::lemma_byte_pos_mono(self.strings@, cj as int, j);
                }
            }
            if cj < ci {
                crate::text::lemma_byte_pos_mono(self.strings@, cj as int, ci as int);
            }
        }
        self.strings.as_str().substring_char(ci, cj)
    }

    /// The index of the character at byte offset `b`.
    fn char_index(&self, b: usize) -> (r: usize)
        requires
            self.wf(),
            exists|i: int| 0 <= i <= self.text().len() && byte_pos(self.text(), i) == b,
        ensures
            0 <= r <= self.text().len(),
            byte_pos(self.text(), r as int) == b,
    {
        let mut k: usize = 0;
        while k < self.offsets.len()
            invariant
                self.wf(),
                0 <= k <= self.offsets@.len(),
                forall|m: int| 0 <= m < k ==> byte_pos(self.text(), m) != b,
                exists|i: int| 0 <= i <= self.text().len() && byte_pos(self.text(), i) == b,
            decreases self.offsets@.len() - k,
        {
            if self.offsets[k] == b {
                return k;
            }
            k = k + 1;
        }
        proof {
            let i = choose|i: int| 0 <= i <= self.text().len() && byte_pos(self.text(), i) == b;
            assert(byte_pos(self.text(), i) != b);
        }
        0
    }

    /// Appends `value` to the string texts; the byte range it takes.
    pub fn push_string(&mut self, value: &str) -> (r: StringRange)
        requires
            old(self).wf(),
            byte_len(old(self).text()) + byte_len(value@) < usize::MAX,
        ensures
            final(self).wf(),
            final(self).text() == old(self).text() + value@,
            r.start() == byte_len(old(self).text()),
            r.end() == byte_len(final(self).text()),
            byte_pos(final(self).text(), old(self).text().len() as int) == r.start(),
            byte_pos(final(self).text(), final(self).text().len() as int) == r.end(),
            final(self).expressions() == old(self).expressions(),
            final(self).expression_table() == old(self).expression_table(),
            final(self).names() == old(self).names(),
            final(self).fresh_symbols() == old(self).fresh_symbols(),
            final(self).params() == old(self).params(),
    {
        let ghost t0 = self.strings@;
        let start = self.offsets[self.offsets.len() - 1];
        proof {
            assert(t0.take(t0.len() as int) =~= t0);
        }
        self.strings.append(value);
        let chars = chars_of(value);
        let ghost t1 = self.strings@;
        assert(t1 =~= t0 + chars@);
        let mut pos = start;
        let mut i: usize = 0;
        proof {
            crate::text::lemma_byte_len_concat(t0, chars@);
            assert(t1.take(t0.len() as int) =~= t0);
            assert forall|k: int| 0 <= k < self.offsets@.len() implies #[trigger] self.offsets@[k]
                == byte_pos(t1, k) by {
                assert(t1.take(k) =~= t0.take(k));
            }
        }
        while i < chars.len()
            invariant
                0 <= i <= chars.len(),
                t1 == t0 + chars@,
                self.strings@ == t1,
                self.offsets@.len() == t0.len() + i + 1,
                forall|k: int|
                    0 <= k < self.offsets@.len() ==> #[trigger] self.offsets@[k] == byte_pos(t1, k),
                pos == byte_pos(t1, t0.len() + i),
                byte_len(t1) < usize::MAX,
                self.expressions == old(self).expressions,
                self.symbols == old(self).symbols,
                self.params == old(self).params,
                old(self).wf(),
            decreases chars.len() - i,
        {
            let c = chars[i];
            proof {
                assert(t1[t0.len() + i] == c);
                lemma_byte_pos_step(t1, t0.len() + i);
                crate::text::lemma_byte_pos_mono(t1, t0.len() + i + 1, t1.len() as int);
                assert(t1.take(t1.len() as int) =~= t1);
            }
            pos = pos + utf8_width(c);
            self.offsets.push(pos);
            i = i + 1;
        }
        proof {
            assert(t1.take(t1.len() as int) =~= t1);
        }
        StringRange(start, pos)
    }
}

/// A string text pushed into a session is what `get_string` gives back for
/// the range that `push_string` returned, however many texts were pushed
/// after it.
pub proof fn law_string_round_trip(before: Session, value: Seq<char>, later: Session, range: StringRange)
    requires
        later.wf(),
        (before.text() + value).is_prefix_of(later.text()),
        range.start() == byte_pos(later.text(), before.text().len() as int),
        range.end() == byte_pos(later.text(), (before.text() + value).len() as int),
    ensures
        exists|i: int, j: int|
            0 <= i <= j <= later.text().len() && byte_pos(later.text(), i) == range.start()
                && byte_pos(later.text(), j) == range.end(),
        forall|i: int, j: int|
            0 <= i <= j <= later.text().len() && byte_pos(later.text(), i) == range.start()
                && byte_pos(later.text(), j) == range.end() ==> later.text().subrange(i, j) == value,
{
    let t = later.text();
    let a = before.text().len() as int;
    let b = (before.text() + value).len() as int;
    assert(0 <= a <= b <= t.len());
    assert forall|i: int, j: int|
        0 <= i <= j <= t.len() && byte_pos(t, i) == range.start() && byte_pos(t, j) == range.end()
        implies t.subrange(i, j) == value by {
        if i < a {
            crate::text::lemma_byte_pos_mono(t, i, a);
        } else if a < i {
            crate::text::lemma_byte_pos_mono(t, a, i);
        }
        if j < b {
            crate::text::lemma_byte_pos_mono(t, j, b);
        } else if b < j {
            crate::text::lemma_byte_pos_mono(t, b, j);
        }
        assert forall|k: int| 0 <= k < value.len() implies t.subrange(i, j)[k] == value[k] by {
            assert(t[a + k] == (before.text() + value)[a + k]);
        }
        assert(t.subrange(i, j) =~= value);
    }
}

} // verus!
