//! What the ring keeps of the fields of an event.

use vstd::prelude::*;
use crate::text::{chars_of, push_chars};
use vstd::slice::slice_subrange;

verus! {

/// A text without the quotes at its ends.
pub open spec fn unquoted(s: Seq<char>) -> Seq<char>
    decreases s.len(),
{
    if s.len() > 0 && s[0] == '"' {
        unquoted(s.skip(1))
    } else if s.len() > 0 && s.last() == '"' {
        unquoted(s.drop_last())
    } else {
        s
    }
}

fn unquote(text: &str) -> (r: String)
    ensures
        r@ == unquoted(text@),
{
    let chars: Vec<char> = chars_of(text);
    let mut lo: usize = 0;
    let mut hi: usize = chars.len();
    assert(chars@.subrange(0, hi as int) =~= text@);
    while lo < hi && chars[lo] == '"'
        invariant
            lo <= hi <= chars@.len(),
            unquoted(text@) == unquoted(chars@.subrange(lo as int, hi as int)),
        decreases hi - lo,
    {
        assert(chars@.subrange(lo as int, hi as int).skip(1) =~= chars@.subrange(lo + 1, hi as int));
        lo = lo + 1;
    }
    while lo < hi && chars[hi - 1] == '"'
        invariant
            lo <= hi <= chars@.len(),
            lo < hi ==> chars@[lo as int] != '"',
            unquoted(text@) == unquoted(chars@.subrange(lo as int, hi as int)),
        decreases hi - lo,
    {
        assert(chars@.subrange(lo as int, hi as int).drop_last() =~= chars@.subrange(
            lo as int,
            hi - 1,
        ));
        hi = hi - 1;
    }
    let mut r: String = String::new();
    push_chars(&mut r, slice_subrange(chars.as_slice(), lo, hi));
    assert(r@ =~= chars@.subrange(lo as int, hi as int));
    r
}

/// The fields of an event that the ring keeps.
#[derive(Debug)]
pub struct FieldGrab {
    /// The message; empty where there is none.
    pub message: String,
    /// The volume it is about.
    pub volume: Option<String>,
    /// The area it names.
    pub area: Option<String>,
}

impl FieldGrab {
    /// Nothing yet.
    pub fn new() -> (r: FieldGrab)
        ensures
            r.message@ == Seq::<char>::empty(),
            r.volume is None,
            r.area is None,
    {
        FieldGrab { message: String::new(), volume: None, area: None }
    }

    /// The fields once `name` was added: `message` as the message, and
    /// `volume` and `area` as `tag`.
    pub open spec fn took(
        &self,
        after: &FieldGrab,
        name: Seq<char>,
        message: Seq<char>,
        tag: Seq<char>,
    ) -> bool {
        if name == "message"@ {
            after.message@ == message && after.volume == self.volume && after.area == self.area
        } else if name == "volume"@ {
            after.message == self.message && (after.volume matches Some(v) && v@ == tag)
                && after.area == self.area
        } else if name == "area"@ {
            after.message == self.message && after.volume == self.volume && (
            after.area matches Some(a) && a@ == tag)
        } else {
            *after == *self
        }
    }

    /// Add a field that is a text.
    pub fn put(&mut self, name: &str, value: &str)
        ensures
            old(self).took(final(self), name@, value@, value@),
    {
        let owned: String = name.to_owned();
        proof {
            reveal_strlit("message");
            reveal_strlit("volume");
            reveal_strlit("area");
        }
        if owned == "message".to_owned() {
            self.message = value.to_owned();
        } else if owned == "volume".to_owned() {
            self.volume = Some(value.to_owned());
        } else if owned == "area".to_owned() {
            self.area = Some(value.to_owned());
        }
    }

    /// Add a field as it is written for debugging: a volume or an area loses
    /// the quotes that this puts round a text.
    pub fn put_debug(&mut self, name: &str, rendered: &str)
        ensures
            old(self).took(final(self), name@, rendered@, unquoted(rendered@)),
    {
        let owned: String = name.to_owned();
        proof {
            reveal_strlit("message");
            reveal_strlit("volume");
            reveal_strlit("area");
        }
        if owned == "message".to_owned() {
            self.message = rendered.to_owned();
        } else if owned == "volume".to_owned() {
            self.volume = Some(unquote(rendered));
        } else if owned == "area".to_owned() {
            self.area = Some(unquote(rendered));
        }
    }

    /// The area: the one named, or else the event's target.
    pub fn area_or(&self, target: &str) -> (r: String)
        ensures
            r@ == match self.area {
                Some(a) => a@,
                None => target@,
            },
    {
        match &self.area {
            Some(a) => a.clone(),
            None => target.to_owned(),
        }
    }
}

} // verus!
