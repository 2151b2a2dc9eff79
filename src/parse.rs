//! A typed cursor over the elements of one array frame, and the commands
//! read through it.
use vstd::prelude::*;
use vstd::utf8::*;
use crate::entity::{Entity, views, lemma_views, utf8_text};
use crate::error::CacheError;
use crate::frame::Frame;

verus! {

/// The text a frame carries as an argument: a simple string, or a bulk
/// string that is valid UTF-8.
pub open spec fn text_of(f: Frame) -> Option<Seq<char>> {
    match f {
        Frame::Simple(s) => Some(s),
        Frame::Bulk(b) => if valid_utf8(b) {
            Some(decode_utf8(b))
        } else {
            None
        },
        _ => None,
    }
}

/// The bytes a frame carries as an argument: those of a simple or a bulk
/// string.
pub open spec fn bytes_of(f: Frame) -> Option<Seq<u8>> {
    match f {
        Frame::Simple(s) => Some(encode_utf8(s)),
        Frame::Bulk(b) => Some(b),
        _ => None,
    }
}

/// A cursor over the elements of an array frame.
pub struct Parse {
    parts: Vec<Entity>,
    pos: usize,
}

impl Parse {
    /// The elements not yet read.
    pub closed spec fn rest(&self) -> Seq<Frame> {
        views(self.parts@).skip(self.pos as int)
    }

    pub closed spec fn wf(&self) -> bool {
        self.pos <= self.parts@.len()
    }

    proof fn lemma_rest(&self)
        requires
            self.wf(),
        ensures
            self.rest().len() == self.parts@.len() - self.pos,
            forall|i: int| 0 <= i < self.rest().len() ==> #[trigger] self.rest()[i] == self.parts@[self.pos + i]@,
    {
        lemma_views(self.parts@);
    }

    /// A cursor over the elements of `frame`, which must be an array.
    pub fn new(frame: Entity) -> (r: Result<Parse, CacheError>)
        ensures
            frame@ is Array ==> r is Ok && r->Ok_0.wf() && r->Ok_0.rest() == frame@->Array_0,
            !(frame@ is Array) ==> r matches Err(CacheError::Other(_)),
    {
        match frame {
            Entity::Array(parts) => {
                let p = Parse { parts, pos: 0 };
                proof {
                    assert(p.rest() =~= views(p.parts@));
                }
                Ok(p)
            },
            _ => Err(CacheError::other("protocol error; expected array")),
        }
    }

    /// The next element.
    pub fn next(&mut self) -> (r: Result<Entity, CacheError>)
        requires
            old(self).wf(),
        ensures
            final(self).wf(),
            old(self).rest().len() == 0 ==> (r matches Err(CacheError::EndOfStream)) && final(self).rest() == old(self).rest(),
            old(self).rest().len() > 0 ==> r is Ok && r->Ok_0@ == old(self).rest()[0] && final(self).rest() == old(self).rest().drop_first(),
    {
        proof {
            self.lemma_rest();
        }
        if self.pos >= self.parts.len() {
            return Err(CacheError::EndOfStream);
        }
        let e = self.parts[self.pos].duplicate();
        self.pos = self.pos + 1;
        proof {
            lemma_views(self.parts@);
            assert(self.rest() =~= old(self).rest().drop_first());
        }
        Ok(e)
    }

    /// The next element, read as text.
    pub fn next_string(&mut self) -> (r: Result<String, CacheError>)
        requires
            old(self).wf(),
        ensures
            final(self).wf(),
            old(self).rest().len() == 0 ==> (r matches Err(CacheError::EndOfStream)) && final(self).rest() == old(self).rest(),
            old(self).rest().len() > 0 ==> final(self).rest() == old(self).rest().drop_first() && match text_of(
                old(self).rest()[0],
            ) {
                Some(t) => r is Ok && r->Ok_0@ == t,
                None => r matches Err(CacheError::Other(_)),
            },
    {
        let e = self.next()?;
        match e {
            Entity::Simple(s) => Ok(s),
            Entity::Bulk(data) => match utf8_text(data.as_slice()) {
                Some(t) => {
                    proof {
                        encode_utf8_decode_utf8(t@);
                    }
                    Ok(t.to_owned())
                },
                None => Err(CacheError::other("protocol error; invalid string")),
            },
            _ => Err(CacheError::other("protocol error; expected simple frame or bulk frame")),
        }
    }

    /// The next element, read as an integer.
    pub fn next_int(&mut self) -> (r: Result<i64, CacheError>)
        requires
            old(self).wf(),
        ensures
            final(self).wf(),
            old(self).rest().len() == 0 ==> (r matches Err(CacheError::EndOfStream)) && final(self).rest() == old(self).rest(),
            old(self).rest().len() > 0 ==> final(self).rest() == old(self).rest().drop_first() && match old(self).rest()[0] {
                Frame::Integer(i) => r is Ok && r->Ok_0 as int == i,
                _ => r matches Err(CacheError::Other(_)),
            },
    {
        let e = self.next()?;
        match e {
            Entity::Integer(i) => Ok(i),
            _ => Err(CacheError::other("protocol error; expected number")),
        }
    }

    /// The next element, read as raw bytes.
    pub fn next_bytes(&mut self) -> (r: Result<Vec<u8>, CacheError>)
        requires
            old(self).wf(),
        ensures
            final(self).wf(),
            old(self).rest().len() == 0 ==> (r matches Err(CacheError::EndOfStream)) && final(self).rest() == old(self).rest(),
            old(self).rest().len() > 0 ==> final(self).rest() == old(self).rest().drop_first() && match bytes_of(
                old(self).rest()[0],
            ) {
                Some(b) => r is Ok && r->Ok_0@ == b,
                None => r matches Err(CacheError::Other(_)),
            },
    {
        let e = self.next()?;
        match e {
            Entity::Simple(s) => Ok(vstd::slice::slice_to_vec(s.as_str().as_bytes())),
            Entity::Bulk(data) => Ok(data),
            _ => Err(CacheError::other("protocol error; expected simple frame or bulk frame")),
        }
    }

    /// Succeeds when every element has been read.
    pub fn finish(&mut self) -> (r: Result<(), CacheError>)
        requires
            old(self).wf(),
        ensures
            final(self).wf(),
            final(self).rest() == old(self).rest(),
            old(self).rest().len() == 0 ==> r is Ok,
            old(self).rest().len() > 0 ==> r matches Err(CacheError::Other(_)),
    {
        proof {
            self.lemma_rest();
        }
        if self.pos >= self.parts.len() {
            Ok(())
        } else {
            Err(CacheError::other("protocol error; expected end of frame, but there was more"))
        }
    }
}

} // verus!
