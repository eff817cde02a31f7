//! The fields of a buffer, read one after another from its start.
use vstd::prelude::*;
use crate::tag::{PbfTag, TagView, read_tag, tag_end, tag_fits, tag_view_at};

verus! {

/// Every field from `pos` to the end of `s` can be read: each lies inside
/// `s`, and the last one ends exactly at the end.
pub open spec fn tags_fit(s: Seq<u8>, pos: int) -> bool
    decreases s.len() - pos,
{
    if pos >= s.len() {
        true
    } else if tag_end(s, pos) <= pos || tag_end(s, pos) > s.len() {
        false
    } else {
        tag_fits(s, pos) && tags_fit(s, tag_end(s, pos))
    }
}

/// The fields read from `pos` to the end of `s`, in order.
pub open spec fn tags_view(s: Seq<u8>, pos: int) -> Seq<TagView>
    decreases s.len() - pos,
{
    if pos >= s.len() || tag_end(s, pos) <= pos || tag_end(s, pos) > s.len() {
        Seq::empty()
    } else {
        seq![tag_view_at(s, pos)] + tags_view(s, tag_end(s, pos))
    }
}

/// A cursor over the fields of a buffer. Each step borrows from the buffer;
/// to read the fields again, make a new one.
pub struct IterTags<'a> {
    data: &'a [u8],
    pos: usize,
}

impl<'a> IterTags<'a> {
    /// The buffer read from.
    pub closed spec fn buffer(&self) -> Seq<u8> {
        self.data@
    }

    /// The position of the next field.
    pub closed spec fn position(&self) -> int {
        self.pos as int
    }

    /// A cursor at the start of `data`.
    pub fn new(data: &'a [u8]) -> (r: IterTags<'a>)
        ensures
            r.buffer() == data@,
            r.position() == 0,
    {
        IterTags { data: data, pos: 0 }
    }

    /// Reads the next field and moves past it; `None` once the position has
    /// reached the end of the buffer.
    pub fn next(&mut self) -> (r: Option<PbfTag<'a>>)
        requires
            old(self).position() < old(self).buffer().len() ==> tag_fits(
                old(self).buffer(),
                old(self).position(),
            ),
        ensures
            final(self).buffer() == old(self).buffer(),
            old(self).position() < old(self).buffer().len() ==> (r matches Some(t) && t@
                == tag_view_at(old(self).buffer(), old(self).position()) && final(self).position()
                == tag_end(old(self).buffer(), old(self).position())),
            old(self).position() >= old(self).buffer().len() ==> (r is None && final(self).position()
                == old(self).position()),
    {
        if self.pos < self.data.len() {
            let (t, npos) = read_tag(self.data, self.pos);
            self.pos = npos;
            return Some(t);
        }
        None
    }

    /// Reads all remaining fields, in order.
    pub fn to_vec(self) -> (r: Vec<PbfTag<'a>>)
        requires
            tags_fit(self.buffer(), self.position()),
        ensures
            r@.map_values(|t: PbfTag<'a>| t@) == tags_view(self.buffer(), self.position()),
    {
        let ghost s = self.buffer();
        let ghost start = self.position();
        let mut it = self;
        let mut res: Vec<PbfTag<'a>> = Vec::new();
        let n = it.data.len();
        while it.pos < n
            invariant
                it.buffer() == s,
                n == s.len(),
                tags_fit(s, it.position()),
                res@.map_values(|t: PbfTag<'a>| t@) + tags_view(s, it.position()) == tags_view(
                    s,
                    start,
                ),
            decreases n - it.pos,
        {
            let ghost p = it.position();
            let ghost before = res@;
            let t = it.next();
            match t {
                Some(t) => {
                    res.push(t);
                    assert(res@.map_values(|t: PbfTag<'a>| t@) =~= before.map_values(
                        |t: PbfTag<'a>| t@,
                    ).push(tag_view_at(s, p)));
                    assert(tags_view(s, p) == seq![tag_view_at(s, p)] + tags_view(s, it.position()));
                    assert(res@.map_values(|t: PbfTag<'a>| t@) + tags_view(s, it.position())
                        =~= before.map_values(|t: PbfTag<'a>| t@) + tags_view(s, p));
                },
                None => {},
            }
        }
        assert(tags_view(s, it.position()) =~= Seq::<TagView>::empty());
        assert(res@.map_values(|t: PbfTag<'a>| t@) =~= res@.map_values(|t: PbfTag<'a>| t@)
            + tags_view(s, it.position()));
        res
    }
}

} // verus!
