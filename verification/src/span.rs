use crate::display::{dec_digits, push_zero_padded, zero_padded};
use crate::text::push_char;
use vstd::prelude::*;

verus! {

/// A half-open byte range `start..end` in a source text.
#[derive(Debug, Clone, Copy, PartialEq, Eq)]
pub struct Span {
    pub start: usize,
    pub end: usize,
}

impl Span {
    pub fn new(start: usize, end: usize) -> (r: Span)
        ensures
            r.start == start,
            r.end == end,
    {
        Span { start, end }
    }

    /// The span as `start..end`, each with zeros in front up to six digits.
    pub fn to_display_string(&self) -> (r: String)
        ensures
            r@ == span_text(*self),
    {
        let mut out = String::new();
        push_zero_padded(&mut out, self.start, 6);
        push_char(&mut out, '.');
        push_char(&mut out, '.');
        push_zero_padded(&mut out, self.end, 6);
        assert(out@ =~= span_text(*self));
        out
    }
}

/// How a span is shown: `start..end`, each with zeros in front up to six
/// digits.
pub open spec fn span_text(span: Span) -> Seq<char> {
    zero_padded(dec_digits(span.start as nat), 6) + seq!['.', '.'] + zero_padded(
        dec_digits(span.end as nat),
        6,
    )
}

/// A value together with the span of source text it came from.
#[derive(Debug, Clone, Copy, PartialEq, Eq)]
pub struct Spanned<T> {
    pub value: T,
    pub span: Span,
}

/// The span that `sbetween(start, end)` gives: the end is pushed past the
/// start so that the span is never empty.
pub open spec fn span_between(start: usize, end: usize) -> Span {
    Span { start, end: if end > start + 1 { end } else { (start + 1) as usize } }
}

/// Attaching spans to values.
pub trait SpannedExt: Sized {
    fn sbetween(self, start: usize, end: usize) -> (r: Spanned<Self>)
        requires
            start < usize::MAX,
        ensures
            r.value == self,
            r.span == span_between(start, end),
    {
        let e = if end > start + 1 { end } else { start + 1 };
        Spanned { value: self, span: Span { start, end: e } }
    }

    fn scopy(self, span: Span) -> (r: Spanned<Self>)
        ensures
            r.value == self,
            r.span == span,
    {
        Spanned { value: self, span }
    }

    fn sinherit<T>(self, other: &Spanned<T>) -> (r: Spanned<Self>)
        ensures
            r.value == self,
            r.span == other.span,
    {
        Spanned { value: self, span: other.span }
    }

    fn sjoin<T, U>(self, start: &Spanned<T>, end: &Spanned<U>) -> (r: Spanned<Self>)
        requires
            start.span.start < usize::MAX,
        ensures
            r.value == self,
            r.span == span_between(start.span.start, end.span.end),
    {
        self.sbetween(start.span.start, end.span.end)
    }
}

impl<T> SpannedExt for T {}

/// Attaching spans to the error of a result.
pub trait ResultSpannedExt<T, E>: Sized {
    fn err_sbetween(self, start: usize, end: usize) -> Result<T, Spanned<E>>
        requires
            start < usize::MAX,
    ;

    fn err_scopy(self, span: Span) -> Result<T, Spanned<E>>;

    fn err_sjoin<A, B>(self, start: &Spanned<A>, end: &Spanned<B>) -> Result<T, Spanned<E>>
        requires
            start.span.start < usize::MAX,
    ;
}

impl<T, E> ResultSpannedExt<T, E> for Result<T, E> {
    fn err_sbetween(self, start: usize, end: usize) -> (r: Result<T, Spanned<E>>)
        ensures
            r == match self {
                Ok(v) => Ok(v),
                Err(e) => Err(Spanned { value: e, span: span_between(start, end) }),
            },
    {
        match self {
            Ok(v) => Ok(v),
            Err(e) => Err(e.sbetween(start, end)),
        }
    }

    fn err_scopy(self, span: Span) -> (r: Result<T, Spanned<E>>)
        ensures
            r == match self {
                Ok(v) => Ok(v),
                Err(e) => Err(Spanned { value: e, span }),
            },
    {
        match self {
            Ok(v) => Ok(v),
            Err(e) => Err(e.scopy(span)),
        }
    }

    fn err_sjoin<A, B>(self, start: &Spanned<A>, end: &Spanned<B>) -> (r: Result<T, Spanned<E>>)
        ensures
            r == match self {
                Ok(v) => Ok(v),
                Err(e) => Err(Spanned { value: e, span: span_between(start.span.start, end.span.end) }),
            },
    {
        match self {
            Ok(v) => Ok(v),
            Err(e) => Err(e.sjoin(start, end)),
        }
    }
}

} // verus!
