//! Frames as executable values: building, encoding and decoding them.
use vstd::prelude::*;
use vstd::utf8::*;
use vstd::string::{StringSliceAdditionalSpecFns, StringExecFns};
use crate::error::CacheError;
use crate::frame::{Frame, Scan, scan, scan_items, line_end, line_after, crlf_at, decimal_value, digits, decimal, digits_value, all_digits, is_digit, in_i64, lemma_digits_value_prefix, lemma_digits, lemma_decimal_value, encode_all, lemma_line_end_skip};

verus! {

broadcast use vstd::std_specs::vec::group_vec_axioms;

pub const STRING_BYTE: u8 = 43;
pub const ERROR_BYTE: u8 = 45;
pub const INTEGER_BYTE: u8 = 58;
pub const BULK_BYTE: u8 = 36;
pub const ARRAY_BYTE: u8 = 42;

/// A value exchanged on the wire. Values compare and hash by their
/// structure, variant first and then payload.
#[derive(Debug, PartialEq, Eq, Hash, PartialOrd, Ord)]
pub enum Entity {
    Simple(String),
    Bulk(Vec<u8>),
    Error(String),
    Integer(i64),
    Null,
    Array(Vec<Entity>),
}

/// The frames that a sequence of entities stands for.
pub open spec fn views(s: Seq<Entity>) -> Seq<Frame>
    decreases s,
{
    if s.len() == 0 {
        Seq::empty()
    } else {
        views(s.drop_last()).push(s.last().model())
    }
}

impl Entity {
    /// The frame this entity stands for.
    pub open spec fn model(&self) -> Frame
        decreases self,
    {
        match self {
            Entity::Simple(s) => Frame::Simple(s@),
            Entity::Bulk(b) => Frame::Bulk(b@),
            Entity::Error(s) => Frame::Error(s@),
            Entity::Integer(i) => Frame::Integer(*i as int),
            Entity::Null => Frame::Null,
            Entity::Array(items) => Frame::Array(views(items@)),
        }
    }
}

impl Clone for Entity {
    fn clone(&self) -> (r: Entity)
        ensures
            r@ == self@,
    {
        self.duplicate()
    }
}

impl View for Entity {
    type V = Frame;

    open spec fn view(&self) -> Frame {
        self.model()
    }
}

pub proof fn lemma_views(s: Seq<Entity>)
    ensures
        views(s).len() == s.len(),
        forall|i: int| 0 <= i < s.len() ==> (#[trigger] views(s)[i]) == s[i]@,
    decreases s.len(),
{
    if s.len() > 0 {
        lemma_views(s.drop_last());
    }
}

/// Reads the byte at the cursor without moving it.
pub fn peek_u8(src: &[u8], pos: &usize) -> (r: Result<u8, CacheError>)
    requires
        *pos <= src@.len(),
    ensures
        *pos < src@.len() ==> r == Ok::<u8, CacheError>(src@[*pos as int]),
        *pos == src@.len() ==> r matches Err(CacheError::Incomplete),
{
    if *pos >= src.len() {
        return Err(CacheError::Incomplete);
    }
    Ok(src[*pos])
}

/// Reads the byte at the cursor and moves past it.
pub fn get_u8(src: &[u8], pos: &mut usize) -> (r: Result<u8, CacheError>)
    requires
        *old(pos) <= src@.len(),
    ensures
        *old(pos) < src@.len() ==> r == Ok::<u8, CacheError>(src@[*old(pos) as int])
            && *final(pos) == *old(pos) + 1,
        *old(pos) == src@.len() ==> (r matches Err(CacheError::Incomplete)) && *final(pos)
            == *old(pos),
{
    if *pos >= src.len() {
        return Err(CacheError::Incomplete);
    }
    let b = src[*pos];
    *pos = *pos + 1;
    Ok(b)
}

/// Moves the cursor `n` bytes on, when that many remain.
pub fn skip(src: &[u8], pos: &mut usize, n: usize) -> (r: Result<(), CacheError>)
    requires
        *old(pos) <= src@.len(),
    ensures
        n <= src@.len() - *old(pos) ==> r is Ok && *final(pos) == *old(pos) + n,
        n > src@.len() - *old(pos) ==> (r matches Err(CacheError::Incomplete)) && *final(pos)
            == *old(pos),
{
    if src.len() - *pos < n {
        return Err(CacheError::Incomplete);
    }
    *pos = *pos + n;
    Ok(())
}

/// Reads the line that starts at the cursor, up to the first `\r\n`, and
/// moves past that `\r\n`.
pub fn get_line<'a>(src: &'a [u8], pos: &mut usize) -> (r: Result<&'a [u8], CacheError>)
    requires
        *old(pos) <= src@.len(),
    ensures
        match line_end(src@, *old(pos) as int) {
            Some(e) => r is Ok && r->Ok_0@ == src@.subrange(*old(pos) as int, e) && *final(pos)
                == e + 2,
            None => (r matches Err(CacheError::Incomplete)) && *final(pos) == *old(pos),
        },
{
    let start = *pos;
    let mut i = start;
    while src.len() - i > 1
        invariant
            start <= i <= src@.len(),
            start == *old(pos),
            *pos == start,
            forall|k: int| start <= k < i ==> !#[trigger] crlf_at(src@, k),
        decreases src@.len() - i,
    {
        if src[i] == 13 && src[i + 1] == 10 {
            proof {
                lemma_line_end_skip(src@, start as int, i as int);
            }
            *pos = i + 2;
            return Ok(&src[start..i]);
        }
        i = i + 1;
    }
    proof {
        lemma_line_end_skip(src@, start as int, i as int);
    }
    Err(CacheError::Incomplete)
}

/// Reads a signed decimal that fills the whole of `line`.
pub fn parse_decimal(line: &[u8]) -> (r: Option<i64>)
    ensures
        match decimal_value(line@) {
            Some(v) => r == Some(v as i64),
            None => r is None,
        },
{
    let neg = line.len() > 0 && line[0] == 45;
    let start: usize = if neg { 1 } else { 0 };
    if start >= line.len() {
        return None;
    }
    let ghost d = line@.subrange(start as int, line@.len() as int);
    proof {
        if neg {
            assert(d =~= line@.drop_first());
        } else {
            assert(d =~= line@);
        }
    }
    let mut acc: u128 = 0;
    let mut i = start;
    while i < line.len()
        invariant
            start <= i <= line@.len(),
            d == line@.subrange(start as int, line@.len() as int),
            start == (if neg { 1int } else { 0int }),
            neg == (line@.len() > 0 && line@[0] == 45),
            neg ==> d == line@.drop_first(),
            !neg ==> d == line@,
            acc == digits_value(d.take(i - start)),
            acc <= 9223372036854775808,
            all_digits(d.take(i - start)),
        decreases line@.len() - i,
    {
        let c = line[i];
        if c < 48 || c > 57 {
            proof {
                assert(!is_digit(d[i - start]));
            }
            return None;
        }
        proof {
            assert(d.take(i + 1 - start).drop_last() =~= d.take(i - start));
        }
        acc = acc * 10 + (c - 48) as u128;
        i = i + 1;
        proof {
            assert forall|k: int| 0 <= k < d.take(i - start).len() implies is_digit(
                #[trigger] d.take(i - start)[k],
            ) by {
                if k < i - 1 - start {
                    assert(d.take(i - start)[k] == d.take(i - 1 - start)[k]);
                }
            }
        }
        if acc > 9223372036854775808 {
            proof {
                lemma_digits_value_prefix(d, i - start);
            }
            return None;
        }
    }
    proof {
        assert(d.take(i - start) =~= d);
    }
    if neg {
        Some((0 - (acc as i128)) as i64)
    } else if acc > 9223372036854775807 {
        None
    } else {
        Some(acc as i64)
    }
}

/// Reads the line at the cursor as a signed decimal.
pub fn get_decimal(src: &[u8], pos: &mut usize) -> (r: Result<i64, CacheError>)
    requires
        *old(pos) <= src@.len(),
    ensures
        match line_end(src@, *old(pos) as int) {
            Some(e) => *final(pos) == e + 2 && match decimal_value(
                src@.subrange(*old(pos) as int, e),
            ) {
                Some(v) => r == Ok::<i64, CacheError>(v as i64),
                None => r matches Err(CacheError::Other(_)),
            },
            None => r matches Err(CacheError::Incomplete),
        },
{
    let line = get_line(src, pos)?;
    match parse_decimal(line) {
        Some(v) => Ok(v),
        None => Err(CacheError::other("protocol error; invalid frame format")),
    }
}

/// Appends the decimal digits of `n`.
fn push_digits(n: u128, out: &mut Vec<u8>)
    ensures
        final(out)@ == old(out)@ + digits(n as nat),
    decreases n,
{
    if n >= 10 {
        push_digits(n / 10, out);
    }
    out.push((48 + n % 10) as u8);
    proof {
        if n < 10 {
            assert(final(out)@ =~= old(out)@ + digits(n as nat));
        }
    }
}

/// Appends the decimal text of `i`.
fn push_decimal(i: i64, out: &mut Vec<u8>)
    ensures
        final(out)@ == old(out)@ + decimal(i as int),
{
    if i < 0 {
        out.push(45);
        push_digits((0 - (i as i128)) as u128, out);
    } else {
        push_digits(i as u128, out);
    }
}

fn push_bytes(out: &mut Vec<u8>, b: &[u8])
    ensures
        final(out)@ == old(out)@ + b@,
{
    let mut i: usize = 0;
    while i < b.len()
        invariant
            i <= b@.len(),
            out@ == old(out)@ + b@.take(i as int),
        decreases b@.len() - i,
    {
        out.push(b[i]);
        i = i + 1;
        proof {
            assert(out@ =~= old(out)@ + b@.take(i as int));
        }
    }
    proof {
        assert(b@.take(i as int) =~= b@);
    }
}

/// Relies on std::str::from_utf8: it succeeds exactly on valid UTF-8, and
/// the text it hands back is made of those very bytes.
#[verifier::external_body]
pub(crate) fn utf8_text(b: &[u8]) -> (r: Option<&str>)
    ensures
        r is Some <==> valid_utf8(b@),
        r matches Some(t) ==> t.spec_bytes() == b@,
{
    std::str::from_utf8(b).ok()
}

pub proof fn lemma_line_end_bounds(b: Seq<u8>, i: int)
    ensures
        line_end(b, i) matches Some(e) ==> i <= e && crlf_at(b, e),
    decreases b.len() - i,
{
    if i >= 0 && i + 1 < b.len() && !crlf_at(b, i) {
        lemma_line_end_bounds(b, i + 1);
    }
}

fn invalid_format() -> (r: CacheError)
    ensures
        r is Other,
{
    CacheError::other("protocol error; invalid frame format")
}

fn is_frame_tag(b: u8) -> (r: bool)
    ensures
        r == (b == 43 || b == 45 || b == 58 || b == 36 || b == 42),
{
    b == STRING_BYTE || b == ERROR_BYTE || b == INTEGER_BYTE || b == BULK_BYTE || b == ARRAY_BYTE
}

impl Entity {
    /// An empty array.
    pub fn array() -> (r: Entity)
        ensures
            r@ == Frame::Array(Seq::empty()),
    {
        Entity::Array(Vec::new())
    }

    /// Appends `frame` to this array.
    pub fn push(&mut self, frame: Entity)
        requires
            *old(self) is Array,
        ensures
            final(self)@ == Frame::Array((old(self)@)->Array_0.push(frame@)),
    {
        match self {
            Entity::Array(vec) => {
                let ghost before = vec@;
                vec.push(frame);
                proof {
                    assert(vec@.drop_last() =~= before);
                }
            },
            _ => {},
        }
    }

    /// Appends a bulk string to this array.
    pub fn push_bulk(&mut self, bytes: Vec<u8>)
        requires
            *old(self) is Array,
        ensures
            final(self)@ == Frame::Array((old(self)@)->Array_0.push(Frame::Bulk(bytes@))),
    {
        self.push(Entity::Bulk(bytes));
    }

    /// Appends an integer to this array.
    pub fn push_int(&mut self, value: i64)
        requires
            *old(self) is Array,
        ensures
            final(self)@ == Frame::Array((old(self)@)->Array_0.push(Frame::Integer(value as int))),
    {
        self.push(Entity::Integer(value));
    }

    /// Appends the wire form of this value to `out`.
    pub fn encode(&self, out: &mut Vec<u8>)
        ensures
            final(out)@ == old(out)@ + self@.encode(),
        decreases self,
    {
        match self {
            Entity::Simple(s) => {
                out.push(STRING_BYTE);
                push_bytes(out, s.as_str().as_bytes());
                out.push(13);
                out.push(10);
            },
            Entity::Error(s) => {
                out.push(ERROR_BYTE);
                push_bytes(out, s.as_str().as_bytes());
                out.push(13);
                out.push(10);
            },
            Entity::Integer(i) => {
                out.push(INTEGER_BYTE);
                push_decimal(*i, out);
                out.push(13);
                out.push(10);
            },
            Entity::Bulk(b) => {
                out.push(BULK_BYTE);
                push_digits(b.len() as u128, out);
                out.push(13);
                out.push(10);
                push_bytes(out, b.as_slice());
                out.push(13);
                out.push(10);
            },
            Entity::Null => {
                out.push(BULK_BYTE);
                out.push(45);
                out.push(49);
                out.push(13);
                out.push(10);
            },
            Entity::Array(items) => {
                out.push(ARRAY_BYTE);
                push_digits(items.len() as u128, out);
                out.push(13);
                out.push(10);
                let ghost mid = out@;
                proof {
                    lemma_views(items@);
                    assert(views(items@).take(0) =~= Seq::<Frame>::empty());
                }
                let mut i: usize = 0;
                while i < items.len()
                    invariant
                        i <= items@.len(),
                        *self == Entity::Array(*items),
                        views(items@).len() == items@.len(),
                        forall|k: int| 0 <= k < items@.len() ==> (#[trigger] views(items@)[k]) == items@[k]@,
                        out@ == mid + encode_all(views(items@).take(i as int)),
                    decreases items@.len() - i,
                {
                    proof {
                        assert(decreases_to!(*items => items@));
                        assert(decreases_to!(items@ => items@[i as int]));
                        assert(decreases_to!(*self => (*self)->Array_0));
                        assert(decreases_to!(*self => items@[i as int]));
                    }
                    items[i].encode(out);
                    proof {
                        let t = views(items@).take(i + 1);
                        assert(t.drop_last() =~= views(items@).take(i as int));
                        assert(t.last() == items@[i as int]@);
                    }
                    i = i + 1;
                }
                proof {
                    assert(views(items@).take(i as int) =~= views(items@));
                }
            },
        }
        proof {
            assert(final(out)@ =~= old(out)@ + self@.encode());
        }
    }

    /// The wire form of this value.
    pub fn to_bytes(&self) -> (r: Vec<u8>)
        ensures
            r@ == self@.encode(),
    {
        let mut out = Vec::new();
        self.encode(&mut out);
        proof {
            assert(out@ =~= self@.encode());
        }
        out
    }
    /// Checks that a whole frame starts at the cursor, and moves past it.
    /// Allocates nothing.
    pub fn check(src: &[u8], pos: &mut usize) -> (r: Result<(), CacheError>)
        requires
            *old(pos) <= src@.len(),
        ensures
            *final(pos) <= src@.len(),
            match scan(src@, *old(pos) as int) {
                Scan::Done(_, e) => r is Ok && *final(pos) == e && e > *old(pos),
                Scan::Incomplete => r matches Err(CacheError::Incomplete),
                Scan::Invalid => r matches Err(CacheError::Other(_)),
            },
        decreases src@.len() - *old(pos),
    {
        let start = *pos;
        let tag = get_u8(src, pos)?;
        if !is_frame_tag(tag) {
            return Err(CacheError::other("protocol error; invalid frame type byte"));
        }
        let line = get_line(src, pos)?;
        proof {
            lemma_line_end_bounds(src@, start + 1);
        }
        if tag == STRING_BYTE || tag == ERROR_BYTE {
            match utf8_text(line) {
                Some(_) => Ok(()),
                None => Err(invalid_format()),
            }
        } else if tag == INTEGER_BYTE {
            match parse_decimal(line) {
                Some(_) => Ok(()),
                None => Err(invalid_format()),
            }
        } else if tag == BULK_BYTE {
            if line.len() == 2 && line[0] == 45 && line[1] == 49 {
                proof {
                    assert(line@ =~= seq![45u8, 49u8]);
                }
                return Ok(());
            }
            proof {
                assert(line@ != seq![45u8, 49u8]);
            }
            let n = match parse_decimal(line) {
                Some(n) => n,
                None => return Err(invalid_format()),
            };
            if n < 0 {
                return Err(invalid_format());
            }
            if (n as u128) + 2 > (src.len() - *pos) as u128 {
                return Err(CacheError::Incomplete);
            }
            let end = *pos + n as usize;
            if src[end] != 13 || src[end + 1] != 10 {
                return Err(invalid_format());
            }
            *pos = end + 2;
            Ok(())
        } else {
            let n = match parse_decimal(line) {
                Some(n) => n,
                None => return Err(invalid_format()),
            };
            if n < 0 {
                return Err(invalid_format());
            }
            let ghost mut done: Seq<Frame> = Seq::empty();
            let mut i: i64 = 0;
            while i < n
                invariant
                    0 <= i <= n,
                    start < *pos <= src@.len(),
                    start == *old(pos),
                    scan(src@, start as int) == scan_items(src@, *pos as int, (n - i) as nat, done),
                decreases n - i,
            {
                let ghost p = *pos;
                if *pos >= src.len() {
                    return Err(CacheError::Incomplete);
                }
                Entity::check(src, pos)?;
                proof {
                    done = done.push(scan(src@, p as int)->Done_0);
                }
                i = i + 1;
            }
            Ok(())
        }
    }

    /// Reads the frame that starts at the cursor, and moves past it.
    pub fn parse(src: &[u8], pos: &mut usize) -> (r: Result<Entity, CacheError>)
        requires
            *old(pos) <= src@.len(),
        ensures
            *final(pos) <= src@.len(),
            match scan(src@, *old(pos) as int) {
                Scan::Done(f, e) => r is Ok && r->Ok_0@ == f && *final(pos) == e && e > *old(pos),
                Scan::Incomplete => r matches Err(CacheError::Incomplete),
                Scan::Invalid => r matches Err(CacheError::Other(_)),
            },
        decreases src@.len() - *old(pos),
    {
        let start = *pos;
        let tag = get_u8(src, pos)?;
        if !is_frame_tag(tag) {
            return Err(CacheError::other("protocol error; invalid frame type byte"));
        }
        let line = get_line(src, pos)?;
        proof {
            lemma_line_end_bounds(src@, start + 1);
        }
        if tag == STRING_BYTE || tag == ERROR_BYTE {
            match utf8_text(line) {
                Some(t) => {
                    let text = t.to_owned();
                    proof {
                        encode_utf8_decode_utf8(t@);
                    }
                    if tag == STRING_BYTE {
                        Ok(Entity::Simple(text))
                    } else {
                        Ok(Entity::Error(text))
                    }
                },
                None => Err(invalid_format()),
            }
        } else if tag == INTEGER_BYTE {
            match parse_decimal(line) {
                Some(v) => Ok(Entity::Integer(v)),
                None => Err(invalid_format()),
            }
        } else if tag == BULK_BYTE {
            if line.len() == 2 && line[0] == 45 && line[1] == 49 {
                proof {
                    assert(line@ =~= seq![45u8, 49u8]);
                }
                return Ok(Entity::Null);
            }
            proof {
                assert(line@ != seq![45u8, 49u8]);
            }
            let n = match parse_decimal(line) {
                Some(n) => n,
                None => return Err(invalid_format()),
            };
            if n < 0 {
                return Err(invalid_format());
            }
            if (n as u128) + 2 > (src.len() - *pos) as u128 {
                return Err(CacheError::Incomplete);
            }
            let end = *pos + n as usize;
            if src[end] != 13 || src[end + 1] != 10 {
                return Err(invalid_format());
            }
            let data = vstd::slice::slice_to_vec(&src[*pos..end]);
            *pos = end + 2;
            Ok(Entity::Bulk(data))
        } else {
            let n = match parse_decimal(line) {
                Some(n) => n,
                None => return Err(invalid_format()),
            };
            if n < 0 {
                return Err(invalid_format());
            }
            let mut out: Vec<Entity> = Vec::new();
            let mut i: i64 = 0;
            while i < n
                invariant
                    0 <= i <= n,
                    start < *pos <= src@.len(),
                    start == *old(pos),
                    scan(src@, start as int) == scan_items(src@, *pos as int, (n - i) as nat, views(out@)),
                decreases n - i,
            {
                let ghost p = *pos;
                if *pos >= src.len() {
                    return Err(CacheError::Incomplete);
                }
                let item = Entity::parse(src, pos)?;
                let ghost before = out@;
                out.push(item);
                proof {
                    assert(out@.drop_last() =~= before);
                }
                i = i + 1;
            }
            Ok(Entity::Array(out))
        }
    }
}

fn same_bytes(a: &[u8], b: &[u8]) -> (r: bool)
    ensures
        r == (a@ == b@),
{
    if a.len() != b.len() {
        return false;
    }
    let mut i: usize = 0;
    while i < a.len()
        invariant
            i <= a@.len(),
            a@.len() == b@.len(),
            forall|k: int| 0 <= k < i ==> a@[k] == b@[k],
        decreases a@.len() - i,
    {
        if a[i] != b[i] {
            return false;
        }
        i = i + 1;
    }
    proof {
        assert(a@ =~= b@);
    }
    true
}

impl Entity {
    /// Whether two values are the same frame.
    pub fn same(&self, other: &Entity) -> (r: bool)
        ensures
            r == (self@ == other@),
        decreases self,
    {
        match (self, other) {
            (Entity::Simple(a), Entity::Simple(b)) => a.eq(b),
            (Entity::Error(a), Entity::Error(b)) => a.eq(b),
            (Entity::Integer(a), Entity::Integer(b)) => *a == *b,
            (Entity::Bulk(a), Entity::Bulk(b)) => same_bytes(a.as_slice(), b.as_slice()),
            (Entity::Null, Entity::Null) => true,
            (Entity::Array(a), Entity::Array(b)) => {
                proof {
                    lemma_views(a@);
                    lemma_views(b@);
                }
                if a.len() != b.len() {
                    proof {
                        assert(views(a@).len() != views(b@).len());
                    }
                    return false;
                }
                let mut i: usize = 0;
                while i < a.len()
                    invariant
                        i <= a@.len(),
                        a@.len() == b@.len(),
                        *self == Entity::Array(*a),
                        *other == Entity::Array(*b),
                        views(a@).len() == a@.len(),
                        views(b@).len() == b@.len(),
                        forall|k: int| 0 <= k < a@.len() ==> (#[trigger] views(a@)[k]) == a@[k]@,
                        forall|k: int| 0 <= k < b@.len() ==> (#[trigger] views(b@)[k]) == b@[k]@,
                        forall|k: int| 0 <= k < i ==> a@[k]@ == b@[k]@,
                    decreases a@.len() - i,
                {
                    proof {
                        assert(decreases_to!(a@ => a@[i as int]));
                        assert(decreases_to!(*self => (*self)->Array_0));
                    }
                    if !a[i].same(&b[i]) {
                        proof {
                            assert(views(a@)[i as int] != views(b@)[i as int]);
                        }
                        return false;
                    }
                    i = i + 1;
                }
                proof {
                    assert(views(a@) =~= views(b@));
                }
                true
            },
            _ => false,
        }
    }

    /// A copy of this value.
    pub fn duplicate(&self) -> (r: Entity)
        ensures
            r@ == self@,
        decreases self,
    {
        match self {
            Entity::Simple(s) => Entity::Simple(s.clone()),
            Entity::Error(s) => Entity::Error(s.clone()),
            Entity::Integer(i) => Entity::Integer(*i),
            Entity::Bulk(b) => Entity::Bulk(vstd::slice::slice_to_vec(b.as_slice())),
            Entity::Null => Entity::Null,
            Entity::Array(items) => {
                proof {
                    lemma_views(items@);
                }
                let mut out: Vec<Entity> = Vec::new();
                let mut i: usize = 0;
                while i < items.len()
                    invariant
                        i <= items@.len(),
                        *self == Entity::Array(*items),
                        views(out@) == views(items@.take(i as int)),
                    decreases items@.len() - i,
                {
                    proof {
                        assert(decreases_to!(items@ => items@[i as int]));
                        assert(decreases_to!(*self => (*self)->Array_0));
                    }
                    let c = items[i].duplicate();
                    let ghost before = out@;
                    out.push(c);
                    proof {
                        assert(out@.drop_last() =~= before);
                        assert(items@.take(i + 1).drop_last() =~= items@.take(i as int));
                    }
                    i = i + 1;
                }
                proof {
                    assert(items@.take(i as int) =~= items@);
                }
                Entity::Array(out)
            },
        }
    }
}

/// A lower-case hexadecimal digit.
pub open spec fn hex_digit(n: int) -> char {
    if n < 10 {
        ((48 + n) as u8) as char
    } else {
        ((87 + n) as u8) as char
    }
}

/// How one byte reads inside a byte-string literal: the escapes `\n`,
/// `\r`, `\t`, `\\`, `\"` and `\0`, printable ASCII as itself, and
/// `\xNN` for the rest.
pub open spec fn byte_escape(b: u8) -> Seq<char> {
    if b == 10 {
        seq!['\\', 'n']
    } else if b == 13 {
        seq!['\\', 'r']
    } else if b == 9 {
        seq!['\\', 't']
    } else if b == 92 || b == 34 {
        seq!['\\', b as char]
    } else if b == 0 {
        seq!['\\', '0']
    } else if 0x20 <= b < 0x7f {
        seq![b as char]
    } else {
        seq!['\\', 'x', hex_digit(b as int / 16), hex_digit(b as int % 16)]
    }
}

pub open spec fn escape_all(b: Seq<u8>) -> Seq<char>
    decreases b.len(),
{
    if b.len() == 0 {
        Seq::empty()
    } else {
        escape_all(b.drop_last()) + byte_escape(b.last())
    }
}

/// The bytes written as a byte-string literal, `b"..."`.
pub open spec fn bytes_debug_text(b: Seq<u8>) -> Seq<char> {
    seq!['b', '"'] + escape_all(b) + seq!['"']
}

/// Relies on the `Debug` form of bytes::Bytes: `b"` and `"` around each byte
/// escaped as in a byte-string literal, hexadecimal in lower case.
#[verifier::external_body]
fn bytes_debug(b: &[u8]) -> (r: String)
    ensures
        r@ == bytes_debug_text(b@),
{
    format!("{:?}", bytes::Bytes::copy_from_slice(b))
}

proof fn lemma_ascii_valid(b: Seq<u8>)
    requires
        forall|k: int| 0 <= k < b.len() ==> #[trigger] b[k] < 128,
    ensures
        valid_utf8(b),
    decreases b.len(),
{
    if b.len() > 0 {
        let c = b[0];
        assert(c & 0x7f <= 0x7f) by (bit_vector);
        let rest = b.subrange(1, b.len() as int);
        assert forall|k: int| 0 <= k < rest.len() implies #[trigger] rest[k] < 128 by {
            assert(rest[k] == b[k + 1]);
        }
        lemma_ascii_valid(rest);
        assert(pop_first_scalar(b) =~= rest);
    }
}

proof fn lemma_decimal_ascii(i: int)
    requires
        in_i64(i),
    ensures
        forall|k: int| 0 <= k < decimal(i).len() ==> #[trigger] decimal(i)[k] < 128,
{
    lemma_decimal_value(i);
    let d = decimal(i);
    assert forall|k: int| 0 <= k < d.len() implies #[trigger] d[k] < 128 by {
        if k > 0 {
            assert(d[k] == d.drop_first()[k - 1]);
            assert(is_digit(d.drop_first()[k - 1]));
        } else if i >= 0 {
            lemma_digits(i as nat);
            assert(is_digit(digits(i as nat)[0]));
        }
    }
}

/// The decimal text of `i`.
fn int_text(i: i64) -> (r: String)
    ensures
        r@ == decode_utf8(decimal(i as int)),
{
    let mut bytes: Vec<u8> = Vec::new();
    push_decimal(i, &mut bytes);
    proof {
        assert(bytes@ =~= decimal(i as int));
        lemma_decimal_ascii(i as int);
        lemma_ascii_valid(bytes@);
    }
    match utf8_text(bytes.as_slice()) {
        Some(t) => {
            proof {
                encode_utf8_decode_utf8(t@);
            }
            t.to_owned()
        },
        None => String::new(),
    }
}

/// The human-readable text of a frame.
pub open spec fn display_of(f: Frame) -> Seq<char>
    decreases f,
{
    match f {
        Frame::Simple(s) => s,
        Frame::Error(e) => "error: "@ + e,
        Frame::Integer(i) => decode_utf8(decimal(i)),
        Frame::Bulk(b) => if valid_utf8(b) {
            decode_utf8(b)
        } else {
            bytes_debug_text(b)
        },
        Frame::Null => "(nil)"@,
        Frame::Array(items) => display_all(items),
    }
}

/// The texts of the frames, separated by single spaces.
pub open spec fn display_all(items: Seq<Frame>) -> Seq<char>
    decreases items,
{
    if items.len() == 0 {
        Seq::empty()
    } else if items.len() == 1 {
        display_of(items[0])
    } else {
        display_all(items.drop_last()) + " "@ + display_of(items.last())
    }
}

impl Entity {
    /// The human-readable text of this value.
    pub fn display(&self) -> (r: String)
        ensures
            r@ == display_of(self@),
        decreases self,
    {
        match self {
            Entity::Simple(s) => s.clone(),
            Entity::Error(e) => {
                let mut out = "error: ".to_owned();
                out.append(e.as_str());
                out
            },
            Entity::Integer(i) => int_text(*i),
            Entity::Bulk(b) => match utf8_text(b.as_slice()) {
                Some(t) => {
                    proof {
                        encode_utf8_decode_utf8(t@);
                    }
                    t.to_owned()
                },
                None => bytes_debug(b.as_slice()),
            },
            Entity::Null => "(nil)".to_owned(),
            Entity::Array(items) => {
                proof {
                    lemma_views(items@);
                }
                let mut out = String::new();
                proof {
                    assert(out@ =~= display_all(views(items@).take(0)));
                }
                let mut i: usize = 0;
                while i < items.len()
                    invariant
                        i <= items@.len(),
                        *self == Entity::Array(*items),
                        views(items@).len() == items@.len(),
                        forall|k: int| 0 <= k < items@.len() ==> (#[trigger] views(items@)[k]) == items@[k]@,
                        out@ == display_all(views(items@).take(i as int)),
                    decreases items@.len() - i,
                {
                    proof {
                        assert(decreases_to!(items@ => items@[i as int]));
                        assert(decreases_to!(*self => (*self)->Array_0));
                    }
                    let part = items[i].display();
                    let ghost t = views(items@).take(i + 1);
                    proof {
                        assert(t.drop_last() =~= views(items@).take(i as int));
                        assert(t.last() == items@[i as int]@);
                    }
                    if i > 0 {
                        out.append(" ");
                    } else {
                        proof {
                            assert(t.len() == 1 && t[0] == items@[0]@);
                            assert(out@ =~= Seq::<char>::empty()) by {
                                assert(views(items@).take(0) =~= Seq::<Frame>::empty());
                            }
                        }
                    }
                    out.append(part.as_str());
                    proof {
                        assert(out@ =~= display_all(t));
                    }
                    i = i + 1;
                }
                proof {
                    assert(views(items@).take(i as int) =~= views(items@));
                }
                out
            },
        }
    }

    /// Whether this value is a simple or bulk string holding `other`.
    pub fn eq_str(&self, other: &str) -> (r: bool)
        ensures
            r == match self@ {
                Frame::Simple(s) => s == other@,
                Frame::Bulk(b) => b == other.spec_bytes(),
                _ => false,
            },
    {
        match self {
            Entity::Simple(s) => s.eq(&other.to_owned()),
            Entity::Bulk(b) => same_bytes(b.as_slice(), other.as_bytes()),
            _ => false,
        }
    }
}

} // verus!