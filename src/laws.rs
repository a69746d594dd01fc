//! Properties of the writer and of the file layout.

use vstd::prelude::*;
use crate::document::{
    body_bytes, closing, document_bytes, free_entry, header, object_bytes, object_offset,
    objects_bytes, trailer, xref_entries, xref_section, xref_start, Body, Document,
    IndirectObject,
};
use crate::format::{ascii, decimal, padded};
use crate::writer::{ByteSink, Writer};

verus! {

/// The sum of the lengths of `chunks`.
pub open spec fn total_len(chunks: Seq<Seq<u8>>) -> nat
    decreases chunks.len(),
{
    if chunks.len() == 0 {
        0
    } else {
        total_len(chunks.drop_last()) + chunks.last().len()
    }
}

/// After a fresh writer has taken each chunk in turn, each write successful,
/// its position is the sum of the chunks' lengths.
pub proof fn lemma_offset_accuracy<S: ByteSink>(states: Seq<Writer<S>>, chunks: Seq<Seq<u8>>)
    requires
        states.len() == chunks.len() + 1,
        states[0].written() == Seq::<u8>::empty(),
        forall|i: int|
            0 <= i < chunks.len() ==> #[trigger] states[i + 1].written() == states[i].written()
                + chunks[i],
    ensures
        states.last().written().len() == total_len(chunks),
    decreases chunks.len(),
{
    if chunks.len() > 0 {
        let n = chunks.len() - 1;
        lemma_offset_accuracy(states.drop_last(), chunks.drop_last());
        assert(states[n + 1].written() == states[n].written() + chunks[n]);
    }
}

/// A stream is written with `/Length` followed by the payload's length in
/// decimal, and exactly the payload stands between `stream\n` and
/// `endstream`.
pub proof fn lemma_stream_length(entries: Vec<u8>, payload: Vec<u8>)
    ensures
        ({
            let b = body_bytes(Body::Stream { entries, payload });
            let at: int = 3 + entries@.len() as int;
            let len: int = payload@.len() as int;
            let k: int = b.len() - 10 - len;
            &&& b.subrange(at, at + 8) == ascii("/Length "@)
            &&& b.subrange(at + 8, at + 8 + decimal(len as nat).len()) == decimal(len as nat)
            &&& b.subrange(k - 7, k) == ascii("stream\n"@)
            &&& b.subrange(k, k + len) == payload@
            &&& b.subrange(k + len, b.len() as int) == ascii("endstream\n"@)
        }),
{
    reveal_strlit("<<\n");
    reveal_strlit("/Length ");
    reveal_strlit("\n>>\nstream\n");
    reveal_strlit("stream\n");
    reveal_strlit("endstream\n");
    let b = body_bytes(Body::Stream { entries, payload });
    let at: int = 3 + entries@.len() as int;
    let len: int = payload@.len() as int;
    let k: int = b.len() - 10 - len;
    let d = decimal(len as nat);
    assert(b.subrange(at, at + 8) =~= ascii("/Length "@));
    assert(b.subrange(at + 8, at + 8 + d.len()) =~= d);
    assert(b.subrange(k - 7, k) =~= ascii("stream\n"@));
    assert(b.subrange(k, k + len) =~= payload@);
    assert(b.subrange(k + len, b.len() as int) =~= ascii("endstream\n"@));
}

proof fn lemma_entry_at(offsets: Seq<nat>, k: int)
    requires
        0 <= k < offsets.len(),
    ensures
        xref_entries(offsets).len() == 20 * offsets.len(),
        xref_entries(offsets).subrange(20 * k, 20 * k + 20) == padded(offsets[k], 10) + ascii(
            " 00000 n\r\n"@,
        ),
    decreases offsets.len(),
{
    reveal_strlit(" 00000 n\r\n");
    crate::format::lemma_padded_len(offsets.last(), 10);
    let d = offsets.drop_last();
    if k < offsets.len() - 1 {
        lemma_entry_at(d, k);
        assert(xref_entries(offsets).subrange(20 * k, 20 * k + 20) =~= xref_entries(d).subrange(
            20 * k,
            20 * k + 20,
        ));
    } else {
        if d.len() > 0 {
            lemma_entry_at(d, 0);
        }
        let e = xref_entries(d);
        let line = padded(offsets[k], 10) + ascii(" 00000 n\r\n"@);
        assert(e.len() == 20 * k);
        assert(line.len() == 20);
        assert(xref_entries(offsets) == e + line);
        assert(xref_entries(offsets).subrange(20 * k, 20 * k + 20) =~= line);
    }
}

/// For `N` objects the cross-reference table holds `N + 1` entries of 20
/// bytes: first the head of the free list, then, for object `k`, the offset
/// at which it starts in ten zero-padded digits.
pub proof fn lemma_xref_exact(objs: Seq<IndirectObject>, base: nat)
    ensures
        ({
            let offs = Seq::new(objs.len(), |j: int| object_offset(objs, base, j));
            let t = free_entry() + xref_entries(offs);
            &&& t.len() == 20 * (objs.len() + 1)
            &&& t.subrange(0, 20) == ascii("0000000000 65535 f\r\n"@)
            &&& forall|k: int|
                1 <= k <= objs.len() ==> #[trigger] t.subrange(20 * k, 20 * k + 20) == padded(
                    object_offset(objs, base, k - 1),
                    10,
                ) + ascii(" 00000 n\r\n"@)
            &&& xref_section(objs, base) == ascii("xref\n0 "@) + decimal(objs.len() + 1) + ascii(
                "\n"@,
            ) + t
        }),
{
    reveal_strlit("0000000000 65535 f\r\n");
    let offs = Seq::new(objs.len(), |j: int| object_offset(objs, base, j));
    let t = free_entry() + xref_entries(offs);
    if objs.len() > 0 {
        lemma_entry_at(offs, 0);
    }
    assert(t.subrange(0, 20) =~= free_entry());
    assert forall|k: int| 1 <= k <= objs.len() implies #[trigger] t.subrange(20 * k, 20 * k + 20)
        == padded(object_offset(objs, base, k - 1), 10) + ascii(" 00000 n\r\n"@) by {
        lemma_entry_at(offs, k - 1);
        assert(t.subrange(20 * k, 20 * k + 20) =~= xref_entries(offs).subrange(
            20 * (k - 1),
            20 * (k - 1) + 20,
        ));
    }
    if objs.len() == 0 {
        assert(xref_entries(offs).len() == 0);
    }
    assert(xref_section(objs, base) =~= ascii("xref\n0 "@) + decimal(objs.len() + 1) + ascii(
        "\n"@,
    ) + t);
}

/// Each object stands in the file at the offset that its entry records.
pub proof fn lemma_objects_at_offsets(doc: Document, base: nat, i: int)
    requires
        0 <= i < doc.objects@.len(),
    ensures
        ({
            let f = document_bytes(doc, base);
            let at = object_offset(doc.objects@, base, i) - base;
            f.subrange(at, at + object_bytes(doc.objects@[i]).len()) == object_bytes(
                doc.objects@[i],
            )
        }),
{
    let objs = doc.objects@;
    let f = document_bytes(doc, base);
    let o = object_bytes(objs[i]);
    let p = objects_bytes(objs.take(i));
    let q = objects_bytes(objs.take(i + 1));
    assert(objs.take(i + 1).drop_last() =~= objs.take(i));
    assert(q == p + o);
    crate::document::lemma_objects_prefix(objs, i + 1);
    let at: int = (header().len() + p.len()) as int;
    assert(f.subrange(at, at + o.len()) =~= q.subrange(p.len() as int, q.len() as int));
}

/// The number after `startxref` is the offset at which `xref\n` stands in the
/// file.
pub proof fn lemma_startxref_points_at_xref(doc: Document, base: nat)
    ensures
        ({
            let f = document_bytes(doc, base);
            let x = xref_start(doc.objects@, base);
            let c = closing(x);
            &&& f.subrange(x - base, x - base + 5) == ascii("xref\n"@)
            &&& f.subrange(f.len() - c.len(), f.len() as int) == c
            &&& c == ascii("startxref\n"@) + decimal(x) + ascii("\n%%EOF\n"@)
        }),
{
    reveal_strlit("xref\n");
    reveal_strlit("xref\n0 ");
    let objs = doc.objects@;
    let f = document_bytes(doc, base);
    let x = xref_start(objs, base);
    let c = closing(x);
    let at: int = (header().len() + objects_bytes(objs).len()) as int;
    assert(f.subrange(at, at + 5) =~= ascii("xref\n"@));
    assert(f.subrange(f.len() - c.len(), f.len() as int) =~= c);
}

} // verus!
