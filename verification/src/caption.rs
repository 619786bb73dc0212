use vstd::prelude::*;

verus! {

/// A timestamp with millisecond precision, as it appears on the time-range
/// line of a timed-caption file.
#[derive(Clone, Copy, PartialEq, Eq, Structural, Debug)]
pub struct Timestamp {
    pub hours: u8,
    pub minutes: u8,
    pub seconds: u8,
    pub millis: u16,
}

impl Timestamp {
    /// A timestamp is canonical when every field fits its fixed-width
    /// rendering: two digits each for hours, minutes and seconds, three
    /// digits for milliseconds.
    pub open spec fn wf(self) -> bool {
        self.hours <= 99 && self.minutes <= 59 && self.seconds <= 59 && self.millis <= 999
    }
}

/// One timed caption entry: a sequence number, a time range, and one or
/// more lines of text held as bytes, newline-separated.
#[derive(Debug, PartialEq)]
pub struct Caption {
    pub num: usize,
    pub start: Timestamp,
    pub end: Timestamp,
    pub text: Vec<u8>,
}

/// The mathematical model of a caption: the same fields, with the text as a
/// byte sequence.
#[verifier::ext_equal]
pub struct SpecCaption {
    pub num: usize,
    pub start: Timestamp,
    pub end: Timestamp,
    pub text: Seq<u8>,
}

impl View for Caption {
    type V = SpecCaption;

    open spec fn view(&self) -> SpecCaption {
        SpecCaption {
            num: self.num,
            start: self.start,
            end: self.end,
            text: self.text@,
        }
    }
}

/// The model of an ordered caption collection.
pub open spec fn caps_view(s: Seq<Caption>) -> Seq<SpecCaption> {
    s.map_values(|c: Caption| c@)
}

/// A caption text is well formed when it consists of one or more nonempty
/// lines: it is nonempty, does not begin or end with a newline, and holds
/// no two adjacent newlines. Exactly these texts survive a trip through
/// the on-disk format, whose blocks are terminated by a blank line.
pub open spec fn wf_text(t: Seq<u8>) -> bool {
    &&& t.len() > 0
    &&& t[0] != 10
    &&& t[t.len() - 1] != 10
    &&& forall|i: int| 0 < i < t.len() ==> !(t[i - 1] == 10 && #[trigger] t[i] == 10)
}

impl SpecCaption {
    /// A caption is canonical when its timestamps fit their fixed-width
    /// rendering and its text is a well-formed block of lines.
    pub open spec fn wf(self) -> bool {
        self.start.wf() && self.end.wf() && wf_text(self.text)
    }
}

/// Every caption of the collection is canonical.
pub open spec fn wf_caps(cs: Seq<SpecCaption>) -> bool {
    forall|i: int| 0 <= i < cs.len() ==> #[trigger] cs[i].wf()
}

} // verus!
