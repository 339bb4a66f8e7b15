use crate::frontend::event::{
    is_terminal, peek_view, read_result_view, sevent_view, stream_ok, symbol_named, Event, EventV,
    ReadError, ReadResult, Reader, SEvent, SReadError,
};
use crate::span::{Span, Spanned, SpannedExt};
use vstd::prelude::*;
use vstd::string::StrSliceExecFns;

verus! {

/// An event handed out as it is, except that a symbol without a name is
/// an invalid symbol.
pub open spec fn value_event(e: SEvent) -> ReadResult {
    match e.value {
        Event::Symbol(n) => if n@.len() == 0 {
            Err(Spanned { value: ReadError::InvalidSymbol, span: e.span })
        } else {
            Ok(sevent_view(e))
        },
        _ => Ok(sevent_view(e)),
    }
}

/// The events `evs` as a reader hands them out: up to the first that ends
/// them, or followed by the end of the source at `end`.
pub open spec fn value_stream(evs: Seq<SEvent>, end: Span) -> Seq<ReadResult>
    decreases evs.len(),
{
    if evs.len() == 0 {
        seq![Ok(Spanned { value: EventV::SourceEnd, span: end })]
    } else {
        let r = value_event(evs[0]);
        if is_terminal(r) {
            seq![r]
        } else {
            seq![r] + value_stream(evs.drop_first(), end)
        }
    }
}

pub proof fn lemma_value_stream(evs: Seq<SEvent>, end: Span)
    ensures
        stream_ok(value_stream(evs, end)),
    decreases evs.len(),
{
    if evs.len() > 0 {
        let r = value_event(evs[0]);
        if !is_terminal(r) {
            lemma_value_stream(evs.drop_first(), end);
            let rest = value_stream(evs.drop_first(), end);
            let st = value_stream(evs, end);
            assert(st == seq![r] + rest);
            assert forall|k: int| 0 <= k < st.len() - 1 implies !is_terminal(#[trigger] st[k]) by {
                if k > 0 {
                    assert(st[k] == rest[k - 1]);
                }
            }
            assert forall|k: int| 0 <= k < st.len() implies symbol_named(#[trigger] st[k]) by {
                if k > 0 {
                    assert(st[k] == rest[k - 1]);
                }
            }
            assert(st.last() == rest.last());
        }
    }
}

/// The events of `pending`, last first.
pub open spec fn in_order(pending: Seq<SEvent>) -> Seq<SEvent> {
    Seq::new(pending.len(), |i: int| pending[pending.len() - 1 - i])
}

/// A reader of a list of events, such as those that describe a value.
pub struct ValueReader {
    pending: Vec<SEvent>,
    end: SEvent,
}

impl ValueReader {
    /// The events yet to come.
    pub closed spec fn events(&self) -> Seq<SEvent> {
        in_order(self.pending@)
    }

    /// Where the source ends.
    pub closed spec fn end_span(&self) -> Span {
        self.end.span
    }

    /// A reader of `events`, followed by the end of the source at `span`.
    pub fn new(events: Vec<SEvent>, span: Span) -> (r: Self)
        ensures
            r.ready(),
            r.events() == events@,
            r.end_span() == span,
    {
        let mut events = events;
        let ghost all = events@;
        let mut pending: Vec<SEvent> = Vec::new();
        while events.len() > 0
            invariant
                all == events@ + in_order(pending@),
            decreases events.len(),
        {
            let e = events.pop().unwrap();
            let ghost before = pending@;
            pending.push(e);
            assert(in_order(pending@) =~= seq![e] + in_order(before));
            assert(all =~= events@ + in_order(pending@));
        }
        assert(all =~= in_order(pending@));
        ValueReader { pending, end: Event::SourceEnd.scopy(span) }
    }
}

impl Reader for ValueReader {
    closed spec fn ready(&self) -> bool {
        self.end.value is SourceEnd
    }

    open spec fn stream(&self) -> Seq<ReadResult> {
        value_stream(self.events(), self.end_span())
    }

    proof fn lemma_stream(&self) {
        lemma_value_stream(self.events(), self.end_span());
    }

    fn peek(&self) -> (r: Result<&SEvent, SReadError>) {
        let n = self.pending.len();
        if n == 0 {
            return Ok(&self.end);
        }
        let e = &self.pending[n - 1];
        assert(self.events()[0] == *e);
        match &e.value {
            Event::Symbol(name) => if name.as_str().unicode_len() == 0 {
                Err(ReadError::InvalidSymbol.scopy(e.span))
            } else {
                Ok(e)
            },
            _ => Ok(e),
        }
    }

    fn next(&mut self) -> (r: Result<SEvent, SReadError>) {
        if self.pending.len() == 0 {
            return Ok(Event::SourceEnd.scopy(self.end.span));
        }
        let ghost before = self.events();
        let e = self.pending.pop().unwrap();
        assert(before[0] == e);
        assert(self.events() =~= before.drop_first());
        match &e.value {
            Event::Symbol(name) => if name.as_str().unicode_len() == 0 {
                return Err(ReadError::InvalidSymbol.scopy(e.span));
            },
            _ => {},
        }
        Ok(e)
    }
}

} // verus!
