//! The marker protocol: small accumulators that record tentative token-index
//! boundaries for ambiguous multi-token constructs (links, strong emphasis)
//! during a single forward scan. The parser fills a marker speculatively,
//! rewinds, and then either commits to a structured node or degrades the
//! opening delimiter to literal text.

use core::ops::Range;

use vstd::prelude::*;

verus! {

/// Boundaries of a link under construction: the token index ranges of its
/// text part and of its URL part.
#[derive(Debug)]
pub struct LinkMarker {
    pub start_text: Option<usize>,
    pub end_text: Option<usize>,
    pub start_url: Option<usize>,
    pub end_url: Option<usize>,
}

impl LinkMarker {
    pub fn new() -> (r: Self)
        ensures
            r.is_empty_spec(),
    {
        Self { start_text: None, end_text: None, start_url: None, end_url: None }
    }

    pub fn set_start_text(&mut self, index: usize)
        ensures
            *final(self) == (LinkMarker { start_text: Some(index), ..*old(self) }),
    {
        self.start_text = Some(index);
    }

    pub fn set_end_text(&mut self, index: usize)
        ensures
            *final(self) == (LinkMarker { end_text: Some(index), ..*old(self) }),
    {
        self.end_text = Some(index);
    }

    pub fn set_start_url(&mut self, index: usize)
        ensures
            *final(self) == (LinkMarker { start_url: Some(index), ..*old(self) }),
    {
        self.start_url = Some(index);
    }

    pub fn set_end_url(&mut self, index: usize)
        ensures
            *final(self) == (LinkMarker { end_url: Some(index), ..*old(self) }),
    {
        self.end_url = Some(index);
    }

    /// All four boundaries are known: the link is complete.
    pub open spec fn is_link_spec(&self) -> bool {
        &&& self.start_text is Some
        &&& self.end_text is Some
        &&& self.start_url is Some
        &&& self.end_url is Some
    }

    pub fn is_link(&self) -> (r: bool)
        ensures
            r == self.is_link_spec(),
    {
        self.start_text.is_some() && self.end_text.is_some() && self.start_url.is_some()
            && self.end_url.is_some()
    }

    /// Nothing recorded yet.
    pub open spec fn is_empty_spec(&self) -> bool {
        &&& self.start_text is None
        &&& self.end_text is None
        &&& self.start_url is None
        &&& self.end_url is None
    }

    pub fn is_empty(&self) -> (r: bool)
        ensures
            r == self.is_empty_spec(),
    {
        self.start_text.is_none() && self.end_text.is_none() && self.start_url.is_none()
            && self.end_url.is_none()
    }

    /// A `[` has been seen, and its matching `](` has not.
    pub open spec fn has_open_text_spec(&self) -> bool {
        &&& self.start_text is Some
        &&& self.end_text is None
        &&& self.start_url is None
        &&& self.end_url is None
    }

    pub fn has_open_text(&self) -> (r: bool)
        ensures
            r == self.has_open_text_spec(),
    {
        self.start_text.is_some() && self.end_text.is_none() && self.start_url.is_none()
            && self.end_url.is_none()
    }

    /// The text part is closed and `(` has opened the URL part, whose `)`
    /// has not been seen.
    pub open spec fn has_open_url_spec(&self) -> bool {
        &&& self.start_text is Some
        &&& self.end_text is Some
        &&& self.start_url is Some
        &&& self.end_url is None
    }

    pub fn has_open_url(&self) -> (r: bool)
        ensures
            r == self.has_open_url_spec(),
    {
        self.start_text.is_some() && self.end_text.is_some() && self.start_url.is_some()
            && self.end_url.is_none()
    }

    /// Given a complete link, the index ranges of its inner components:
    /// (link text, link URL).
    pub fn ranges(&self) -> (r: Option<(Range<usize>, Range<usize>)>)
        ensures
            r is Some <==> self.is_link_spec(),
            r matches Some((text_range, url_range)) ==> {
                &&& text_range.start == self.start_text->0
                &&& text_range.end == self.end_text->0
                &&& url_range.start == self.start_url->0
                &&& url_range.end == self.end_url->0
            },
    {
        match (self.start_text, self.end_text, self.start_url, self.end_url) {
            (Some(text_start), Some(text_end), Some(url_start), Some(url_end)) => Some(
                (text_start..text_end, url_start..url_end),
            ),
            _ => None,
        }
    }
}

/// Boundaries of a strong-emphasis body under construction: the token index
/// just after the opening `**` and the index of the first closing `*`.
#[derive(Debug)]
pub struct InlineMarker {
    pub start: Option<usize>,
    pub end: Option<usize>,
}

impl InlineMarker {
    pub fn new() -> (r: Self)
        ensures
            r.is_empty_spec(),
    {
        Self { start: None, end: None }
    }

    pub open spec fn is_empty_spec(&self) -> bool {
        self.start is None && self.end is None
    }

    pub fn is_empty(&self) -> (r: bool)
        ensures
            r == self.is_empty_spec(),
    {
        self.start.is_none() && self.end.is_none()
    }

    pub open spec fn is_open_spec(&self) -> bool {
        self.start is Some && self.end is None
    }

    pub fn is_open(&self) -> (r: bool)
        ensures
            r == self.is_open_spec(),
    {
        self.start.is_some() && self.end.is_none()
    }

    pub open spec fn is_closed_spec(&self) -> bool {
        self.start is Some && self.end is Some
    }

    pub fn is_closed(&self) -> (r: bool)
        ensures
            r == self.is_closed_spec(),
    {
        self.start.is_some() && self.end.is_some()
    }

    pub fn open(&mut self, index: usize)
        ensures
            *final(self) == (InlineMarker { start: Some(index), ..*old(self) }),
    {
        self.start = Some(index);
    }

    pub fn close(&mut self, index: usize)
        ensures
            *final(self) == (InlineMarker { end: Some(index), ..*old(self) }),
    {
        self.end = Some(index);
    }

    /// The body range of a closed marker, or nothing if the marker is not
    /// closed or the body would be empty.
    pub fn range(&self) -> (r: Option<Range<usize>>)
        ensures
            r is Some <==> (self.start is Some && self.end is Some && self.start->0
                < self.end->0),
            r is Some ==> r->0.start == self.start->0 && r->0.end == self.end->0,
    {
        match (self.start, self.end) {
            (Some(start), Some(end)) => {
                if start < end {
                    Some(start..end)
                } else {
                    None
                }
            },
            _ => None,
        }
    }
}

} // verus!
