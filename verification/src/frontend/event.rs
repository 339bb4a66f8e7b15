use crate::span::Spanned;
use vstd::prelude::*;

verus! {

pub type SEvent = Spanned<Event>;

/// What a reader hands to the parser. A floating-point literal is kept as the
/// text that denotes it.
#[derive(Debug, Clone, PartialEq)]
pub enum Event {
    ListStart,
    ListEnd,
    Quote,
    Symbol(String),
    Integer(i64),
    Float(String),
    String(String),
    SourceEnd,
}

/// The mathematical value of an event: text as a character sequence.
pub enum EventV {
    ListStart,
    ListEnd,
    Quote,
    Symbol(Seq<char>),
    Integer(i64),
    Float(Seq<char>),
    String(Seq<char>),
    SourceEnd,
}

impl Event {
    pub open spec fn view(&self) -> EventV {
        match self {
            Event::ListStart => EventV::ListStart,
            Event::ListEnd => EventV::ListEnd,
            Event::Quote => EventV::Quote,
            Event::Symbol(s) => EventV::Symbol(s@),
            Event::Integer(v) => EventV::Integer(*v),
            Event::Float(s) => EventV::Float(s@),
            Event::String(s) => EventV::String(s@),
            Event::SourceEnd => EventV::SourceEnd,
        }
    }
}

pub open spec fn sevent_view(e: SEvent) -> Spanned<EventV> {
    Spanned { value: e.value@, span: e.span }
}

pub type SReadError = Spanned<ReadError>;

#[derive(Debug, Clone, Copy, PartialEq, Eq)]
pub enum ReadError {
    InvalidEscapeSequence,
    UnterminatedString,
    UnsupportedSyntaxValue,
    InvalidSymbol,
}

/// What a reader yields, viewed.
pub type ReadResult = Result<Spanned<EventV>, SReadError>;

pub open spec fn read_result_view(r: Result<SEvent, SReadError>) -> ReadResult {
    match r {
        Ok(e) => Ok(sevent_view(e)),
        Err(e) => Err(e),
    }
}

/// A peeked event or error, viewed.
pub open spec fn peek_view(r: Result<&SEvent, SReadError>) -> ReadResult {
    match r {
        Ok(e) => Ok(sevent_view(*e)),
        Err(e) => Err(e),
    }
}

/// Whether a read result ends the events: the end of the source, or an
/// error.
pub open spec fn is_terminal(r: ReadResult) -> bool {
    match r {
        Ok(e) => e.value is SourceEnd,
        Err(_) => true,
    }
}

/// Whether a read result that is a symbol has a name.
pub open spec fn symbol_named(r: ReadResult) -> bool {
    match r {
        Ok(e) => match e.value {
            EventV::Symbol(n) => n.len() > 0,
            _ => true,
        },
        Err(_) => true,
    }
}

/// Whether `st` is what a reader hands out: events up to the first end of
/// source or error, which comes last; every symbol has a name.
pub open spec fn stream_ok(st: Seq<ReadResult>) -> bool {
    &&& st.len() > 0
    &&& is_terminal(st.last())
    &&& forall|k: int| 0 <= k < st.len() - 1 ==> !is_terminal(#[trigger] st[k])
    &&& forall|k: int| 0 <= k < st.len() ==> symbol_named(#[trigger] st[k])
}

/// A source of events with one event of lookahead.
pub trait Reader {
    /// Whether the reader is in a state to go on.
    spec fn ready(&self) -> bool;

    /// The events that the reader hands out from now on, up to and
    /// including the end of the source or the first error.
    spec fn stream(&self) -> Seq<ReadResult>;

    proof fn lemma_stream(&self)
        requires
            self.ready(),
        ensures
            stream_ok(self.stream()),
    ;

    /// The next event, left in place.
    fn peek(&self) -> (r: Result<&SEvent, SReadError>)
        requires
            self.ready(),
        ensures
            self.stream().len() > 0 ==> peek_view(r) == self.stream()[0],
    ;

    /// Hands out the next event and moves past it.
    fn next(&mut self) -> (r: Result<SEvent, SReadError>)
        requires
            old(self).ready(),
        ensures
            final(self).ready(),
            old(self).stream().len() > 0 ==> read_result_view(r) == old(self).stream()[0],
            old(self).stream().len() > 1 ==> final(self).stream() == old(self).stream().drop_first(),
    ;
}

} // verus!
