//! What holds of the wire form: it reads back to the frame it came from,
//! and any cut short of its end reads as incomplete.
use vstd::prelude::*;
use vstd::utf8::*;
use crate::frame::{Frame, Scan, scan, scan_items, line_end, line_after, crlf, crlf_at, line_ok,
    decimal, decimal_value, in_i64, encode_all, lemma_decimal_value, lemma_line_end_skip};

verus! {

proof fn lemma_decimal_line_ok(i: int)
    requires
        in_i64(i),
    ensures
        line_ok(decimal(i)),
        decimal_value(decimal(i)) == Some(i),
{
    lemma_decimal_value(i);
    assert forall|k: int| #![trigger crlf_at(decimal(i), k)] !crlf_at(decimal(i), k) by {
        if crlf_at(decimal(i), k) {
            assert(decimal(i)[k] == 13);
        }
    }
}

/// A line followed by `\r\n` at `pos + 1` is found whole.
proof fn lemma_tagged_line(b: Seq<u8>, pos: int, line: Seq<u8>)
    requires
        0 <= pos,
        pos + line.len() + 3 <= b.len(),
        b.subrange(pos + 1, pos + line.len() + 3) == line + crlf(),
        line_ok(line),
    ensures
        line_after(b, pos) == Some(pos + 1 + line.len()),
        b.subrange(pos + 1, pos + 1 + line.len()) == line,
{
    let e = pos + 1 + line.len();
    assert forall|k: int| pos + 1 <= k < e implies !#[trigger] crlf_at(b, k) by {
        assert(b[k] == (line + crlf())[k - pos - 1]);
        assert(b[k + 1] == (line + crlf())[k - pos]);
        if k + 1 < e {
            assert(!crlf_at(line, k - pos - 1));
        }
    }
    assert(b[e] == (line + crlf())[line.len() as int]);
    assert(b[e + 1] == (line + crlf())[line.len() + 1int]);
    lemma_line_end_skip(b, pos + 1, e);
    assert(b.subrange(pos + 1, e) =~= line);
}

/// A line cut before its `\r\n` is complete is not found.
proof fn lemma_tagged_line_cut(b: Seq<u8>, pos: int, line: Seq<u8>)
    requires
        0 <= pos < b.len(),
        b.len() < pos + line.len() + 3,
        b.subrange(pos + 1, b.len() as int) == (line + crlf()).take(b.len() - pos - 1),
        line_ok(line),
    ensures
        line_after(b, pos) is None,
{
    let n = b.len() as int;
    let e = pos + 1 + line.len();
    assert forall|k: int| pos + 1 <= k < n implies !#[trigger] crlf_at(b, k) by {
        if crlf_at(b, k) {
            assert(b[k] == b.subrange(pos + 1, n)[k - pos - 1]);
            assert(b[k + 1] == b.subrange(pos + 1, n)[k - pos]);
            assert(b[k] == (line + crlf())[k - pos - 1]);
            assert(b[k + 1] == (line + crlf())[k - pos]);
            if k + 1 < e {
                assert(crlf_at(line, k - pos - 1));
            }
        }
    }
    if pos + 1 < n {
        lemma_line_end_skip(b, pos + 1, n);
    }
}

proof fn lemma_encode_all_step(items: Seq<Frame>, j: int)
    requires
        0 <= j < items.len(),
    ensures
        encode_all(items.take(j + 1)) == encode_all(items.take(j)) + items[j].encode(),
{
    assert(items.take(j + 1).drop_last() =~= items.take(j));
}

proof fn lemma_encode_all_prefix(items: Seq<Frame>, j: int)
    requires
        0 <= j <= items.len(),
    ensures
        encode_all(items.take(j)).len() <= encode_all(items).len(),
        encode_all(items).subrange(0, encode_all(items.take(j)).len() as int) == encode_all(
            items.take(j),
        ),
    decreases items.len(),
{
    if j == items.len() {
        assert(items.take(j) =~= items);
        assert(encode_all(items).subrange(0, encode_all(items).len() as int) =~= encode_all(items));
    } else {
        assert(items.take(j) =~= items.drop_last().take(j));
        lemma_encode_all_prefix(items.drop_last(), j);
        let p = encode_all(items.take(j));
        assert(encode_all(items).subrange(0, p.len() as int) =~= encode_all(
            items.drop_last(),
        ).subrange(0, p.len() as int));
    }
}

proof fn lemma_encode_len(f: Frame)
    ensures
        f.encode().len() > 0,
        f.encode()[0] == 43 || f.encode()[0] == 45 || f.encode()[0] == 58 || f.encode()[0] == 36
            || f.encode()[0] == 42,
{
}

proof fn lemma_scan_text(f: Frame, b: Seq<u8>, pos: int)
    requires
        f is Simple || f is Error,
        f.wf(),
        0 <= pos,
        pos + f.encode().len() <= b.len(),
        b.subrange(pos, pos + f.encode().len()) == f.encode(),
    ensures
        scan(b, pos) == Scan::Done(f, pos + f.encode().len()),
{
    let en = f.encode();
    let s = if f is Simple { f->Simple_0 } else { f->Error_0 };
    let u = encode_utf8(s);
    assert(b[pos] == en[0]);
    assert(b.subrange(pos + 1, pos + en.len()) =~= en.subrange(1, en.len() as int));
    assert(en.subrange(1, en.len() as int) =~= u + crlf());
    lemma_tagged_line(b, pos, u);
    encode_utf8_valid_utf8(s);
    encode_utf8_decode_utf8(s);
}

proof fn lemma_scan_short(f: Frame, b: Seq<u8>, pos: int)
    requires
        f is Integer || f is Null,
        f.wf(),
        0 <= pos,
        pos + f.encode().len() <= b.len(),
        b.subrange(pos, pos + f.encode().len()) == f.encode(),
    ensures
        scan(b, pos) == Scan::Done(f, pos + f.encode().len()),
{
    let en = f.encode();
    assert(b[pos] == en[0]);
    assert(b.subrange(pos + 1, pos + en.len()) =~= en.subrange(1, en.len() as int));
    if let Frame::Integer(i) = f {
        lemma_decimal_line_ok(i);
        assert(en.subrange(1, en.len() as int) =~= decimal(i) + crlf());
        lemma_tagged_line(b, pos, decimal(i));
    } else {
        let l = seq![45u8, 49u8];
        assert(line_ok(l));
        assert(en.subrange(1, en.len() as int) =~= l + crlf());
        lemma_tagged_line(b, pos, l);
    }
}

proof fn lemma_scan_bulk(data: Seq<u8>, b: Seq<u8>, pos: int)
    requires
        Frame::Bulk(data).wf(),
        0 <= pos,
        pos + Frame::Bulk(data).encode().len() <= b.len(),
        b.subrange(pos, pos + Frame::Bulk(data).encode().len()) == Frame::Bulk(data).encode(),
    ensures
        scan(b, pos) == Scan::Done(Frame::Bulk(data), pos + Frame::Bulk(data).encode().len()),
{
    let en = Frame::Bulk(data).encode();
    assert(b[pos] == en[0]);
    let d = decimal(data.len() as int);
    lemma_decimal_line_ok(data.len() as int);
    lemma_decimal_value(data.len() as int);
    let h: int = 1 + d.len() as int + 2;
    assert(en.subrange(1, h) =~= d + crlf());
    assert(b.subrange(pos + 1, pos + h) =~= en.subrange(1, h));
    lemma_tagged_line(b, pos, d);
    assert(d != seq![45u8, 49u8]) by {
        if d == seq![45u8, 49u8] {
            assert(d[0] == 45);
        }
    }
    let e = pos + 1 + d.len();
    assert(b.subrange(e + 2, e + 2 + data.len()) =~= data) by {
        assert forall|k: int| 0 <= k < data.len() implies b.subrange(e + 2, e + 2 + data.len())[k]
            == data[k] by {
            assert(b[e + 2 + k] == en[h + k]);
        }
    }
    assert(b[e + 2 + data.len()] == en[h + data.len() as int]);
    assert(b[e + 3 + data.len()] == en[h + data.len() + 1int]);
}

proof fn lemma_scan_array(items: Seq<Frame>, b: Seq<u8>, pos: int)
    requires
        Frame::Array(items).wf(),
        0 <= pos,
        pos + Frame::Array(items).encode().len() <= b.len(),
        b.subrange(pos, pos + Frame::Array(items).encode().len()) == Frame::Array(items).encode(),
    ensures
        scan(b, pos) == Scan::Done(Frame::Array(items), pos + Frame::Array(items).encode().len()),
    decreases items, 1int, 0int,
{
    let en = Frame::Array(items).encode();
    assert(b[pos] == en[0]);
    let d = decimal(items.len() as int);
    lemma_decimal_line_ok(items.len() as int);
    lemma_decimal_value(items.len() as int);
    let h: int = 1 + d.len() as int + 2;
    assert(en.subrange(1, h) =~= d + crlf());
    assert(b.subrange(pos + 1, pos + h) =~= en.subrange(1, h));
    lemma_tagged_line(b, pos, d);
    let all = encode_all(items);
    assert(b.subrange(pos + h, pos + h + all.len()) =~= all) by {
        assert forall|k: int| 0 <= k < all.len() implies b.subrange(pos + h, pos + h + all.len())[k]
            == all[k] by {
            assert(b[pos + h + k] == en[h + k]);
        }
    }
    assert(items.take(0) =~= Seq::<Frame>::empty());
    lemma_scan_items_encoded(items, 0, b, pos + h);
}

/// The wire form of a well-formed frame, found at `pos`, reads back as that
/// frame and ends where the wire form ends.
pub proof fn lemma_scan_encoded(f: Frame, b: Seq<u8>, pos: int)
    requires
        f.wf(),
        0 <= pos,
        pos + f.encode().len() <= b.len(),
        b.subrange(pos, pos + f.encode().len()) == f.encode(),
    ensures
        scan(b, pos) == Scan::Done(f, pos + f.encode().len()),
    decreases f, 2int, 0int,
{
    match f {
        Frame::Simple(_) => lemma_scan_text(f, b, pos),
        Frame::Error(_) => lemma_scan_text(f, b, pos),
        Frame::Integer(_) => lemma_scan_short(f, b, pos),
        Frame::Null => lemma_scan_short(f, b, pos),
        Frame::Bulk(data) => lemma_scan_bulk(data, b, pos),
        Frame::Array(items) => lemma_scan_array(items, b, pos),
    }
}

proof fn lemma_scan_items_encoded(items: Seq<Frame>, j: int, b: Seq<u8>, start: int)
    requires
        forall|k: int| 0 <= k < items.len() ==> (#[trigger] items[k]).wf(),
        0 <= j <= items.len(),
        0 <= start,
        start + encode_all(items).len() <= b.len(),
        b.subrange(start, start + encode_all(items).len()) == encode_all(items),
    ensures
        scan_items(
            b,
            start + encode_all(items.take(j)).len(),
            (items.len() - j) as nat,
            items.take(j),
        ) == Scan::Done(Frame::Array(items), start + encode_all(items).len()),
    decreases items, 0int, items.len() - j,
{
    let all = encode_all(items);
    if j == items.len() {
        assert(items.take(j) =~= items);
    } else {
        lemma_encode_all_step(items, j);
        lemma_encode_all_prefix(items, j + 1);
        let pj = encode_all(items.take(j));
        let f = items[j];
        let p = start + pj.len();
        let q = p + f.encode().len();
        assert(b.subrange(p, q) =~= f.encode()) by {
            assert forall|k: int| 0 <= k < f.encode().len() implies b[p + k] == f.encode()[k] by {
                assert(b[p + k] == all[pj.len() + k]);
                assert(encode_all(items.take(j + 1))[pj.len() + k] == f.encode()[k]);
            }
        }
        lemma_encode_len(f);
        lemma_scan_encoded(f, b, p);
        assert(items.take(j).push(f) =~= items.take(j + 1));
        lemma_scan_items_encoded(items, j + 1, b, start);
    }
}

/// Reading back the wire form of a well-formed frame gives that frame, and
/// stops at the end of the wire form whatever bytes follow it.
pub proof fn lemma_round_trip(f: Frame, rest: Seq<u8>)
    requires
        f.wf(),
    ensures
        scan(f.encode(), 0) == Scan::Done(f, f.encode().len() as int),
        scan(f.encode() + rest, 0) == Scan::Done(f, f.encode().len() as int),
{
    assert(f.encode().subrange(0, f.encode().len() as int) =~= f.encode());
    lemma_scan_encoded(f, f.encode(), 0);
    assert((f.encode() + rest).subrange(0, f.encode().len() as int) =~= f.encode());
    lemma_scan_encoded(f, f.encode() + rest, 0);
}

/// The first `k` bytes of `b` from `pos` are those of `w`.
pub open spec fn holds_at(b: Seq<u8>, pos: int, w: Seq<u8>, k: int) -> bool {
    forall|i: int| 0 <= i < k ==> b[pos + i] == #[trigger] w[i]
}

proof fn lemma_cut_header(b: Seq<u8>, pos: int, tag: u8, line: Seq<u8>, en: Seq<u8>)
    requires
        0 <= pos < b.len(),
        b.len() < pos + en.len(),
        en.len() >= line.len() + 3,
        en.subrange(0, line.len() + 3int) == seq![tag] + line + crlf(),
        tag == 43 || tag == 45 || tag == 58 || tag == 36 || tag == 42,
        holds_at(b, pos, en, b.len() - pos),
        line_ok(line),
    ensures
        b.len() < pos + line.len() + 3 ==> scan(b, pos) == Scan::Incomplete,
        b.len() >= pos + line.len() + 3 ==> line_after(b, pos) == Some(pos + 1 + line.len())
            && b.subrange(pos + 1, pos + 1 + line.len()) == line && b[pos] == tag,
{
    let h: int = line.len() + 3int;
    assert(b[pos] == en[0]);
    assert(en[0] == en.subrange(0, h)[0]);
    if b.len() < pos + h {
        assert(b.subrange(pos + 1, b.len() as int) =~= (line + crlf()).take(b.len() - pos - 1)) by {
            assert forall|i: int| 0 <= i < b.len() - pos - 1 implies #[trigger] b.subrange(pos + 1, b.len() as int)[i]
                == (line + crlf()).take(b.len() - pos - 1)[i] by {
                assert(b[pos + 1 + i] == en[1 + i]);
                assert(en[1 + i] == en.subrange(0, h)[1 + i]);
            }
        }
        lemma_tagged_line_cut(b, pos, line);
    } else {
        assert(b.subrange(pos + 1, pos + h) =~= line + crlf()) by {
            assert forall|i: int| 0 <= i < h - 1 implies b.subrange(pos + 1, pos + h)[i] == (line
                + crlf())[i] by {
                assert(b[pos + 1 + i] == en[1 + i]);
                assert(en[1 + i] == en.subrange(0, h)[1 + i]);
            }
        }
        lemma_tagged_line(b, pos, line);
    }
}

/// A cut of the wire form of a well-formed frame, short of its end, reads
/// as incomplete.
pub proof fn lemma_scan_cut(f: Frame, b: Seq<u8>, pos: int)
    requires
        f.wf(),
        0 <= pos <= b.len(),
        b.len() < pos + f.encode().len(),
        holds_at(b, pos, f.encode(), b.len() - pos),
    ensures
        scan(b, pos) == Scan::Incomplete,
    decreases f, 2int, 0int,
{
    let en = f.encode();
    if pos < b.len() {
        match f {
            Frame::Simple(s) => {
                let u = encode_utf8(s);
                assert(en.subrange(0, u.len() + 3int) =~= seq![43u8] + u + crlf());
                lemma_cut_header(b, pos, 43, u, en);
            },
            Frame::Error(s) => {
                let u = encode_utf8(s);
                assert(en.subrange(0, u.len() + 3int) =~= seq![45u8] + u + crlf());
                lemma_cut_header(b, pos, 45, u, en);
            },
            Frame::Integer(i) => {
                lemma_decimal_line_ok(i);
                assert(en.subrange(0, decimal(i).len() + 3int) =~= seq![58u8] + decimal(i) + crlf());
                lemma_cut_header(b, pos, 58, decimal(i), en);
            },
            Frame::Null => {
                let l = seq![45u8, 49u8];
                assert(line_ok(l));
                assert(en.subrange(0, l.len() + 3int) =~= seq![36u8] + l + crlf());
                lemma_cut_header(b, pos, 36, l, en);
            },
            Frame::Bulk(data) => {
                let d = decimal(data.len() as int);
                lemma_decimal_line_ok(data.len() as int);
                assert(en.subrange(0, d.len() + 3int) =~= seq![36u8] + d + crlf());
                lemma_cut_header(b, pos, 36, d, en);
                assert(d != seq![45u8, 49u8]) by {
                    if d == seq![45u8, 49u8] {
                        assert(d[0] == 45);
                    }
                }
            },
            Frame::Array(items) => {
                let d = decimal(items.len() as int);
                lemma_decimal_line_ok(items.len() as int);
                assert(en.subrange(0, d.len() + 3int) =~= seq![42u8] + d + crlf());
                lemma_cut_header(b, pos, 42, d, en);
                if b.len() >= pos + d.len() + 3 {
                    let h: int = d.len() + 3int;
                    let all = encode_all(items);
                    assert(holds_at(b, pos + h, all, b.len() - pos - h)) by {
                        assert forall|i: int| 0 <= i < b.len() - pos - h implies b[pos + h + i]
                            == #[trigger] all[i] by {
                            assert(b[pos + (h + i)] == en[h + i]);
                        }
                    }
                    assert(items.take(0) =~= Seq::<Frame>::empty());
                    lemma_scan_items_cut(items, 0, b, pos + h);
                }
            },
        }
    }
}

proof fn lemma_scan_items_cut(items: Seq<Frame>, j: int, b: Seq<u8>, start: int)
    requires
        forall|k: int| 0 <= k < items.len() ==> (#[trigger] items[k]).wf(),
        0 <= j <= items.len(),
        0 <= start,
        start + encode_all(items.take(j)).len() <= b.len() < start + encode_all(items).len(),
        holds_at(b, start, encode_all(items), b.len() - start),
    ensures
        scan_items(
            b,
            start + encode_all(items.take(j)).len(),
            (items.len() - j) as nat,
            items.take(j),
        ) == Scan::Incomplete,
    decreases items, 0int, items.len() - j,
{
    let all = encode_all(items);
    if j == items.len() {
        assert(items.take(j) =~= items);
    } else {
        let pj = encode_all(items.take(j));
        let p = start + pj.len();
        if p < b.len() {
            lemma_encode_all_step(items, j);
            lemma_encode_all_prefix(items, j + 1);
            let f = items[j];
            let q = p + f.encode().len();
            assert(forall|k: int| 0 <= k < f.encode().len() ==> all[pj.len() + k] == f.encode()[k]) by {
                assert forall|k: int| 0 <= k < f.encode().len() implies all[pj.len() + k]
                    == f.encode()[k] by {
                    assert(all.subrange(0, encode_all(items.take(j + 1)).len() as int)[pj.len() + k]
                        == all[pj.len() + k]);
                    assert(encode_all(items.take(j + 1))[pj.len() + k] == f.encode()[k]);
                }
            }
            lemma_encode_len(f);
            if q <= b.len() {
                assert(b.subrange(p, q) =~= f.encode()) by {
                    assert forall|k: int| 0 <= k < f.encode().len() implies b.subrange(p, q)[k]
                        == f.encode()[k] by {
                        assert(b[start + (pj.len() + k)] == all[pj.len() + k]);
                    }
                }
                lemma_scan_encoded(f, b, p);
                assert(items.take(j).push(f) =~= items.take(j + 1));
                lemma_scan_items_cut(items, j + 1, b, start);
            } else {
                assert(holds_at(b, p, f.encode(), b.len() - p)) by {
                    assert forall|k: int| 0 <= k < b.len() - p implies b[p + k] == #[trigger] f.encode()[k] by {
                        assert(b[start + (pj.len() + k)] == all[pj.len() + k]);
                    }
                }
                lemma_scan_cut(f, b, p);
            }
        }
    }
}

/// Cutting the wire form of a well-formed frame anywhere short of its end
/// reads as incomplete; once the rest is appended it reads as the frame.
pub proof fn lemma_incremental(f: Frame, k: int)
    requires
        f.wf(),
        0 <= k < f.encode().len(),
    ensures
        scan(f.encode().take(k), 0) == Scan::Incomplete,
        scan(f.encode().take(k) + f.encode().skip(k), 0) == Scan::Done(f, f.encode().len() as int),
{
    let en = f.encode();
    assert(holds_at(en.take(k), 0, en, k));
    lemma_scan_cut(f, en.take(k), 0);
    assert(en.take(k) + en.skip(k) =~= en);
    lemma_round_trip(f, Seq::empty());
}

} // verus!
