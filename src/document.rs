//! The document model and the file layout: objects, cross-reference table,
//! trailer.

use vstd::prelude::*;
use crate::format::{ascii, decimal, padded, push_decimal, push_padded, text};
use crate::writer::{ByteSink, Writer};

verus! {

/// The body of an indirect object.
pub enum Body {
    /// A dictionary or an array, written exactly as given.
    Dictionary(Vec<u8>),
    /// A stream: the entries of its dictionary other than `/Length`, and the
    /// raw payload. `/Length` is measured from the payload when written.
    Stream { entries: Vec<u8>, payload: Vec<u8> },
}

/// An object with a number; its generation is always 0.
pub struct IndirectObject {
    pub number: u64,
    pub body: Body,
}

/// Objects in write order, and the number of the catalog that the trailer
/// names as root.
pub struct Document {
    pub objects: Vec<IndirectObject>,
    pub root: u64,
}

/// Why a document cannot be written; found before any byte is written.
#[derive(Debug, Clone, Copy, PartialEq, Eq, Structural)]
pub enum Invalid {
    /// The document holds no object.
    Empty,
    /// The object at position `expected - 1` is numbered `found`, not `expected`.
    Gap { expected: u64, found: u64 },
    /// The dictionary entries of stream object `number` hold a `/Length` key;
    /// the length is always measured from the payload instead.
    LengthGiven { number: u64 },
    /// The root is not the number of an object of the document.
    MissingRoot,
}

/// Why writing a document failed.
#[derive(Debug, PartialEq, Eq)]
pub enum WriteError<E> {
    /// The sink refused a write.
    Sink(E),
    /// The document breaks a rule of its structure.
    Invalid(Invalid),
    /// An offset would not fit the ten digits of a cross-reference entry,
    /// or the file would not fit the offset counter.
    TooLarge,
}

/// One past the largest offset that fits the ten digits of an entry.
pub const OFFSET_LIMIT: u64 = 10_000_000_000;

/// The header line and the comment line of four bytes above 0x7f.
pub open spec fn header() -> Seq<u8> {
    ascii("%PDF-1.7\n"@) + seq![0x25u8, 0x80u8, 0x81u8, 0x82u8, 0x83u8, 0x0au8]
}

pub open spec fn body_bytes(b: Body) -> Seq<u8> {
    match b {
        Body::Dictionary(d) => d@,
        Body::Stream { entries, payload } => ascii("<<\n"@) + entries@ + ascii("/Length "@)
            + decimal(payload@.len()) + ascii("\n>>\nstream\n"@) + payload@ + ascii(
            "endstream\n"@,
        ),
    }
}

/// `<n> 0 obj`, the body, `endobj`.
pub open spec fn object_bytes(o: IndirectObject) -> Seq<u8> {
    decimal(o.number as nat) + ascii(" 0 obj\n"@) + body_bytes(o.body) + ascii("endobj\n"@)
}

/// The objects one after the other.
pub open spec fn objects_bytes(objs: Seq<IndirectObject>) -> Seq<u8>
    decreases objs.len(),
{
    if objs.len() == 0 {
        Seq::empty()
    } else {
        objects_bytes(objs.drop_last()) + object_bytes(objs.last())
    }
}

/// Where the object at position `i` starts, for a file that starts at `base`.
pub open spec fn object_offset(objs: Seq<IndirectObject>, base: nat, i: int) -> nat {
    base + header().len() + objects_bytes(objs.take(i)).len()
}

/// Where the cross-reference section starts.
pub open spec fn xref_start(objs: Seq<IndirectObject>, base: nat) -> nat {
    base + header().len() + objects_bytes(objs).len()
}

/// The in-use entries, one per offset.
pub open spec fn xref_entries(offsets: Seq<nat>) -> Seq<u8>
    decreases offsets.len(),
{
    if offsets.len() == 0 {
        Seq::empty()
    } else {
        xref_entries(offsets.drop_last()) + padded(offsets.last(), 10) + ascii(" 00000 n\r\n"@)
    }
}

/// The entry of object 0, the head of the free list.
pub open spec fn free_entry() -> Seq<u8> {
    ascii("0000000000 65535 f\r\n"@)
}

pub open spec fn xref_section(objs: Seq<IndirectObject>, base: nat) -> Seq<u8> {
    ascii("xref\n0 "@) + decimal(objs.len() + 1) + ascii("\n"@) + free_entry() + xref_entries(
        Seq::new(objs.len(), |i: int| object_offset(objs, base, i)),
    )
}

pub open spec fn trailer(count: nat, root: nat) -> Seq<u8> {
    ascii("trailer\n<<\n/Size "@) + decimal(count + 1) + ascii("\n/Root "@) + decimal(root)
        + ascii(" 0 R\n>>\n"@)
}

pub open spec fn closing(xref: nat) -> Seq<u8> {
    ascii("startxref\n"@) + decimal(xref) + ascii("\n%%EOF\n"@)
}

/// The whole file for `doc`, written from offset `base` on.
pub open spec fn document_bytes(doc: Document, base: nat) -> Seq<u8> {
    let objs = doc.objects@;
    header() + objects_bytes(objs) + xref_section(objs, base) + trailer(objs.len(), doc.root as nat)
        + closing(xref_start(objs, base))
}

/// The first position from `i` on whose object is not numbered position + 1.
pub open spec fn first_gap(objs: Seq<IndirectObject>, i: nat) -> Option<nat>
    decreases objs.len() - i,
{
    if i >= objs.len() {
        None
    } else if objs[i as int].number != i + 1 {
        Some(i)
    } else {
        first_gap(objs, i + 1)
    }
}

/// Whether `b` ends a name: white space or a delimiter.
pub open spec fn ends_name(b: u8) -> bool {
    b == 0x00 || b == 0x09 || b == 0x0a || b == 0x0c || b == 0x0d || b == 0x20 || b == 0x28
        || b == 0x29 || b == 0x3c || b == 0x3e || b == 0x5b || b == 0x5d || b == 0x7b || b == 0x7d
        || b == 0x2f || b == 0x25
}

/// Whether the name `/Length` stands at position `i` of `e`.
pub open spec fn length_key_at(e: Seq<u8>, i: int) -> bool {
    &&& 0 <= i
    &&& i + 7 <= e.len()
    &&& e.subrange(i, i + 7) == ascii("/Length"@)
    &&& (i + 7 == e.len() || ends_name(e[i + 7]))
}

/// Whether dictionary entries hold the name `/Length`.
pub open spec fn names_length(e: Seq<u8>) -> bool {
    exists|i: int| length_key_at(e, i)
}

/// The first position from `i` on that holds a stream whose entries name
/// `/Length`.
pub open spec fn first_given_length(objs: Seq<IndirectObject>, i: nat) -> Option<nat>
    decreases objs.len() - i,
{
    if i >= objs.len() {
        None
    } else if objs[i as int].body matches Body::Stream { entries, .. } && names_length(entries@) {
        Some(i)
    } else {
        first_given_length(objs, i + 1)
    }
}

/// What validation finds of `doc`: no object, a gap in the numbers, a stream
/// that gives its own `/Length`, or a root that names no object; checked in
/// that order.
pub open spec fn check(doc: Document) -> Result<(), Invalid> {
    let objs = doc.objects@;
    if objs.len() == 0 {
        Err(Invalid::Empty)
    } else if let Some(i) = first_gap(objs, 0) {
        Err(Invalid::Gap { expected: (i + 1) as u64, found: objs[i as int].number })
    } else if let Some(i) = first_given_length(objs, 0) {
        Err(Invalid::LengthGiven { number: objs[i as int].number })
    } else if doc.root < 1 || doc.root > objs.len() {
        Err(Invalid::MissingRoot)
    } else {
        Ok(())
    }
}

/// Whether an offset would not fit ten digits, or the file would not fit a
/// `usize` counter.
pub open spec fn too_large(doc: Document, base: nat) -> bool {
    xref_start(doc.objects@, base) >= OFFSET_LIMIT || base + document_bytes(doc, base).len()
        > usize::MAX
}

proof fn lemma_take_last(objs: Seq<IndirectObject>, i: int)
    requires
        0 <= i < objs.len(),
    ensures
        objects_bytes(objs.take(i + 1)) == objects_bytes(objs.take(i)) + object_bytes(objs[i]),
{
    assert(objs.take(i + 1).drop_last() =~= objs.take(i));
}

proof fn lemma_entries_len(offsets: Seq<nat>)
    ensures
        xref_entries(offsets).len() == 20 * offsets.len(),
    decreases offsets.len(),
{
    if offsets.len() > 0 {
        lemma_entries_len(offsets.drop_last());
        crate::format::lemma_padded_len(offsets.last(), 10);
        reveal_strlit(" 00000 n\r\n");
    }
}

fn append(out: &mut Vec<u8>, s: &[u8])
    ensures
        final(out)@ == old(out)@ + s@,
{
    out.extend_from_slice(s);
    assert(final(out)@ =~= old(out)@ + s@);
}

fn is_name_end(b: u8) -> (r: bool)
    ensures
        r == ends_name(b),
{
    b == 0x00 || b == 0x09 || b == 0x0a || b == 0x0c || b == 0x0d || b == 0x20 || b == 0x28
        || b == 0x29 || b == 0x3c || b == 0x3e || b == 0x5b || b == 0x5d || b == 0x7b || b == 0x7d
        || b == 0x2f || b == 0x25
}

/// Whether dictionary entries hold the name `/Length`.
pub fn has_length_key(e: &Vec<u8>) -> (r: bool)
    ensures
        r == names_length(e@),
{
    proof {
        reveal_strlit("/Length");
    }
    let key = text("/Length");
    if e.len() < 7 {
        return false;
    }
    let mut i: usize = 0;
    while i <= e.len() - 7
        invariant
            e@.len() >= 7,
            key@ == ascii("/Length"@),
            key@.len() == 7,
            i <= e@.len() - 6,
            forall|j: int| 0 <= j < i ==> !length_key_at(e@, j),
        decreases e@.len() - i,
    {
        let mut j: usize = 0;
        let mut same = true;
        while j < 7
            invariant
                j <= 7,
                i + 7 <= e.len(),
                key@.len() == 7,
                same == forall|k: int| 0 <= k < j ==> e@[i + k] == key@[k],
            decreases 7 - j,
        {
            if e[i + j] != key[j] {
                same = false;
            }
            j = j + 1;
        }
        if same && (i + 7 == e.len() || is_name_end(e[i + 7])) {
            assert(e@.subrange(i as int, i + 7) =~= key@);
            assert(length_key_at(e@, i as int));
            return true;
        }
        assert(!length_key_at(e@, i as int)) by {
            if e@.subrange(i as int, i + 7) == key@ {
                assert forall|k: int| 0 <= k < 7 implies e@[i + k] == key@[k] by {
                    assert(e@.subrange(i as int, i + 7)[k] == e@[i + k]);
                }
            }
        }
        i = i + 1;
    }
    false
}

/// The bytes of one object.
pub fn encode_object(o: &IndirectObject) -> (r: Vec<u8>)
    ensures
        r@ == object_bytes(*o),
{
    proof {
        reveal_strlit(" 0 obj\n");
        reveal_strlit("<<\n");
        reveal_strlit("/Length ");
        reveal_strlit("\n>>\nstream\n");
        reveal_strlit("endstream\n");
        reveal_strlit("endobj\n");
    }
    let mut out: Vec<u8> = Vec::new();
    push_decimal(&mut out, o.number);
    append(&mut out, text(" 0 obj\n"));
    match &o.body {
        Body::Dictionary(d) => {
            append(&mut out, d.as_slice());
        },
        Body::Stream { entries, payload } => {
            append(&mut out, text("<<\n"));
            append(&mut out, entries.as_slice());
            append(&mut out, text("/Length "));
            push_decimal(&mut out, payload.len() as u64);
            append(&mut out, text("\n>>\nstream\n"));
            append(&mut out, payload.as_slice());
            append(&mut out, text("endstream\n"));
        },
    }
    append(&mut out, text("endobj\n"));
    assert(out@ =~= object_bytes(*o));
    out
}


pub(crate) proof fn lemma_objects_prefix(objs: Seq<IndirectObject>, i: int)
    requires
        0 <= i <= objs.len(),
    ensures
        objects_bytes(objs.take(i)).is_prefix_of(objects_bytes(objs)),
    decreases objs.len(),
{
    if i == objs.len() {
        assert(objs.take(i) =~= objs);
    } else {
        let d = objs.drop_last();
        lemma_objects_prefix(d, i);
        assert(d.take(i) =~= objs.take(i));
        let a = objects_bytes(d);
        let b = objects_bytes(objs);
        assert(b == a + object_bytes(objs.last()));
        assert(b.take(a.len() as int) =~= a);
        assert(b.take(objects_bytes(objs.take(i)).len() as int) =~= a.take(
            objects_bytes(objs.take(i)).len() as int,
        ));
    }
}

proof fn lemma_objects_len(objs: Seq<IndirectObject>)
    ensures
        objects_bytes(objs).len() >= objs.len(),
    decreases objs.len(),
{
    if objs.len() > 0 {
        lemma_objects_len(objs.drop_last());
        reveal_strlit("endobj\n");
    }
}

/// The number of decimal digits of `n`.
fn decimal_len(n: u64) -> (r: u64)
    ensures
        r == decimal(n as nat).len(),
        r <= n + 1,
{
    let mut v: Vec<u8> = Vec::new();
    push_decimal(&mut v, n);
    proof {
        crate::format::lemma_decimal_len(n as nat);
    }
    v.len() as u64
}

/// Encodes every object, as long as the cross-reference section would start
/// below the offset limit.
fn encode_all(objs: &Vec<IndirectObject>, base: usize) -> (r: Option<(Vec<Vec<u8>>, u64)>)
    ensures
        r is Some <==> xref_start(objs@, base as nat) < OFFSET_LIMIT,
        r matches Some((e, x)) ==> x == xref_start(objs@, base as nat) && e@.len() == objs@.len()
            && forall|j: int|
            0 <= j < objs@.len() ==> (#[trigger] e@[j])@ == object_bytes(objs@[j]),
{
    proof {
        reveal_strlit("%PDF-1.7\n");
        lemma_objects_prefix(objs@, 0);
    }
    if base as u64 >= OFFSET_LIMIT - 15 {
        return None;
    }
    let mut pos: u64 = base as u64 + 15;
    let mut encoded: Vec<Vec<u8>> = Vec::new();
    let mut i: usize = 0;
    while i < objs.len()
        invariant
            0 <= i <= objs@.len(),
            pos == object_offset(objs@, base as nat, i as int),
            pos < OFFSET_LIMIT,
            encoded@.len() == i,
            forall|j: int| 0 <= j < i ==> (#[trigger] encoded@[j])@ == object_bytes(objs@[j]),
        decreases objs@.len() - i,
    {
        let bytes = encode_object(&objs[i]);
        proof {
            lemma_take_last(objs@, i as int);
            lemma_objects_prefix(objs@, i + 1);
        }
        if bytes.len() as u64 >= OFFSET_LIMIT - pos {
            return None;
        }
        pos = pos + bytes.len() as u64;
        encoded.push(bytes);
        i = i + 1;
    }
    proof {
        assert(objs@.take(i as int) =~= objs@);
    }
    Some((encoded, pos))
}

/// The header line and the line that marks the file as binary.
fn header_bytes() -> (r: Vec<u8>)
    ensures
        r@ == header(),
{
    proof {
        reveal_strlit("%PDF-1.7\n");
    }
    let mut out: Vec<u8> = Vec::new();
    append(&mut out, text("%PDF-1.7\n"));
    out.push(0x25);
    out.push(0x80);
    out.push(0x81);
    out.push(0x82);
    out.push(0x83);
    out.push(0x0a);
    assert(out@ =~= header());
    out
}

proof fn lemma_emitted_prefix(o: Seq<u8>, h: Seq<u8>, p: Seq<u8>, q: Seq<u8>, rest: Seq<u8>)
    requires
        p.is_prefix_of(q),
    ensures
        (o + h + p).is_prefix_of(o + (h + q + rest)),
{
    assert((o + (h + q + rest)).take((o + h + p).len() as int) =~= o + h + p);
}

/// The cross-reference section for objects at the given offsets.
fn xref_bytes(offsets: &Vec<u64>, Ghost(offs): Ghost<Seq<nat>>) -> (r: Vec<u8>)
    requires
        offsets@.len() == offs.len(),
        offsets@.len() < OFFSET_LIMIT,
        forall|j: int| 0 <= j < offs.len() ==> offsets@[j] as nat == #[trigger] offs[j],
    ensures
        r@ == ascii("xref\n0 "@) + decimal(offs.len() + 1) + ascii("\n"@) + free_entry()
            + xref_entries(offs),
{
    proof {
        reveal_strlit("xref\n0 ");
        reveal_strlit("\n");
        reveal_strlit("0000000000 65535 f\r\n");
        reveal_strlit(" 00000 n\r\n");
    }
    let mut out: Vec<u8> = Vec::new();
    append(&mut out, text("xref\n0 "));
    push_decimal(&mut out, offsets.len() as u64 + 1);
    append(&mut out, text("\n"));
    append(&mut out, text("0000000000 65535 f\r\n"));
    let ghost start = out@;
    let mut j: usize = 0;
    while j < offsets.len()
        invariant
            0 <= j <= offs.len(),
            offsets@.len() == offs.len(),
            forall|k: int| 0 <= k < offs.len() ==> offsets@[k] as nat == #[trigger] offs[k],
            out@ == start + xref_entries(offs.take(j as int)),
        decreases offs.len() - j,
    {
        proof {
            reveal_strlit(" 00000 n\r\n");
        }
        push_padded(&mut out, offsets[j], 10);
        append(&mut out, text(" 00000 n\r\n"));
        proof {
            assert(offs.take(j + 1).drop_last() =~= offs.take(j as int));
            assert(out@ =~= start + xref_entries(offs.take(j + 1)));
        }
        j = j + 1;
    }
    proof {
        assert(offs.take(j as int) =~= offs);
    }
    out
}

/// The trailer, `startxref` with the offset of the cross-reference section,
/// and the end-of-file marker.
fn tail_bytes(count: u64, root: u64, xref: u64) -> (r: Vec<u8>)
    requires
        count < OFFSET_LIMIT,
    ensures
        r@ == trailer(count as nat, root as nat) + closing(xref as nat),
{
    proof {
        reveal_strlit("trailer\n<<\n/Size ");
        reveal_strlit("\n/Root ");
        reveal_strlit(" 0 R\n>>\n");
        reveal_strlit("startxref\n");
        reveal_strlit("\n%%EOF\n");
    }
    let mut out: Vec<u8> = Vec::new();
    append(&mut out, text("trailer\n<<\n/Size "));
    push_decimal(&mut out, count + 1);
    append(&mut out, text("\n/Root "));
    push_decimal(&mut out, root);
    append(&mut out, text(" 0 R\n>>\n"));
    append(&mut out, text("startxref\n"));
    push_decimal(&mut out, xref);
    append(&mut out, text("\n%%EOF\n"));
    assert(out@ =~= trailer(count as nat, root as nat) + closing(xref as nat));
    out
}

impl Document {
    /// A document with no objects, whose root will be object 1.
    pub fn new() -> (r: Document)
        ensures
            r.objects@.len() == 0,
            r.root == 1,
    {
        Document { objects: Vec::new(), root: 1 }
    }

    /// Appends an object with `body`, numbered one past the objects before it,
    /// and returns its number.
    pub fn add(&mut self, body: Body) -> (r: u64)
        requires
            old(self).objects@.len() < u64::MAX,
        ensures
            r == old(self).objects@.len() + 1,
            final(self).objects@ == old(self).objects@.push(IndirectObject { number: r, body }),
            final(self).root == old(self).root,
    {
        let number = self.objects.len() as u64 + 1;
        self.objects.push(IndirectObject { number, body });
        number
    }

    /// Checks, before anything is written, that the document has objects,
    /// that they are numbered 1, 2, 3, ... in order, and that the root is one
    /// of them.
    pub fn validate(&self) -> (r: Result<(), Invalid>)
        ensures
            r == check(*self),
    {
        let n = self.objects.len();
        if n == 0 {
            return Err(Invalid::Empty);
        }
        let mut i: usize = 0;
        while i < n
            invariant
                0 <= i <= n,
                n == self.objects@.len(),
                first_gap(self.objects@, 0) == first_gap(self.objects@, i as nat),
            decreases n - i,
        {
            let number = self.objects[i].number;
            if number != i as u64 + 1 {
                return Err(Invalid::Gap { expected: i as u64 + 1, found: number });
            }
            i = i + 1;
        }
        let mut i: usize = 0;
        while i < n
            invariant
                0 <= i <= n,
                n == self.objects@.len(),
                first_gap(self.objects@, 0) is None,
                first_given_length(self.objects@, 0) == first_given_length(self.objects@, i as nat),
            decreases n - i,
        {
            if let Body::Stream { entries, .. } = &self.objects[i].body {
                if has_length_key(entries) {
                    return Err(Invalid::LengthGiven { number: self.objects[i].number });
                }
            }
            i = i + 1;
        }
        if self.root < 1 || self.root > n as u64 {
            return Err(Invalid::MissingRoot);
        }
        Ok(())
    }

    /// The length of the file when written from `base` on, plus `base`,
    /// given where the cross-reference section starts.
    fn file_end(&self, base: usize, xref_at: u64) -> (r: u64)
        requires
            check(*self) is Ok,
            xref_at == xref_start(self.objects@, base as nat),
            xref_at < OFFSET_LIMIT,
        ensures
            r == base + document_bytes(*self, base as nat).len(),
    {
        let ghost objs = self.objects@;
        let ghost offs = Seq::new(objs.len(), |j: int| object_offset(objs, base as nat, j));
        let n = self.objects.len();
        proof {
            lemma_objects_len(objs);
            lemma_entries_len(offs);
            reveal_strlit("%PDF-1.7\n");
            reveal_strlit("xref\n0 ");
            reveal_strlit("\n");
            reveal_strlit("0000000000 65535 f\r\n");
            reveal_strlit("trailer\n<<\n/Size ");
            reveal_strlit("\n/Root ");
            reveal_strlit(" 0 R\n>>\n");
            reveal_strlit("startxref\n");
            reveal_strlit("\n%%EOF\n");
        }
        assert(n < OFFSET_LIMIT);
        assert(self.root <= n);
        let count_len = decimal_len(n as u64 + 1);
        let root_len = decimal_len(self.root);
        let xref_len = decimal_len(xref_at);
        xref_at + 7 + count_len + 1 + 20 + 20 * (n as u64) + 17 + count_len + 7 + root_len + 8 + 10
            + xref_len + 7
    }

    /// Writes the objects in order, each with its start offset recorded.
    fn emit_objects<S: ByteSink>(
        &self,
        writer: &mut Writer<S>,
        encoded: &Vec<Vec<u8>>,
        Ghost(before): Ghost<Seq<u8>>,
        Ghost(held): Ghost<Seq<u8>>,
    ) -> (r: Result<Vec<u64>, S::Error>)
        requires
            old(writer).wf(),
            old(writer).written() == before + header(),
            old(writer).sink().taken() == held + header(),
            before.len() + document_bytes(*self, before.len()).len() <= usize::MAX,
            encoded@.len() == self.objects@.len(),
            forall|j: int|
                0 <= j < self.objects@.len() ==> (#[trigger] encoded@[j])@ == object_bytes(
                    self.objects@[j],
                ),
        ensures
            final(writer).wf(),
            old(writer).sink().infallible() ==> r is Ok && final(writer).sink().infallible(),
            r is Ok ==> final(writer).sink().taken() == held + header() + objects_bytes(
                self.objects@,
            ),
            r is Err ==> exists|i: int|
                0 <= i <= self.objects@.len() && final(writer).written() == before + header()
                    + objects_bytes(#[trigger] self.objects@.take(i)),
            r matches Ok(offsets) ==> {
                &&& final(writer).written() == before + header() + objects_bytes(self.objects@)
                &&& offsets@.len() == self.objects@.len()
                &&& forall|j: int|
                    0 <= j < offsets@.len() ==> offsets@[j] as nat == #[trigger] object_offset(
                        self.objects@,
                        before.len(),
                        j,
                    )
            },
    {
        let ghost objs = self.objects@;
        let ghost base = before.len();
        let ghost doc = document_bytes(*self, base);
        proof {
            assert(objs.take(0) =~= Seq::<IndirectObject>::empty());
            assert(doc =~= header() + objects_bytes(objs) + (xref_section(objs, base) + trailer(
                objs.len(),
                self.root as nat,
            ) + closing(xref_start(objs, base))));
        }
        let ghost sure = writer.sink().infallible();
        let n = self.objects.len();
        let mut offsets: Vec<u64> = Vec::new();
        let mut i: usize = 0;
        while i < n
            invariant
                0 <= i <= n,
                n == objs.len(),
                objs == self.objects@,
                writer.wf(),
                sure == old(writer).sink().infallible(),
                sure ==> writer.sink().infallible(),
                writer.sink().taken() == held + header() + objects_bytes(objs.take(i as int)),
                base == before.len(),
                base + doc.len() <= usize::MAX,
                doc == header() + objects_bytes(objs) + (xref_section(objs, base) + trailer(
                    objs.len(),
                    self.root as nat,
                ) + closing(xref_start(objs, base))),
                encoded@.len() == n,
                forall|j: int| 0 <= j < n ==> (#[trigger] encoded@[j])@ == object_bytes(objs[j]),
                writer.written() == before + header() + objects_bytes(objs.take(i as int)),
                offsets@.len() == i,
                forall|j: int|
                    0 <= j < i ==> offsets@[j] as nat == #[trigger] object_offset(objs, base, j),
            decreases n - i,
        {
            let start = writer.pos();
            proof {
                lemma_take_last(objs, i as int);
                lemma_objects_prefix(objs, i + 1);
                reveal_strlit("%PDF-1.7\n");
            }
            match writer.write(encoded[i].as_slice()) {
                Err(e) => {
                    return Err(e);
                },
                Ok(()) => {},
            }
            offsets.push(start as u64);
            i = i + 1;
        }
        proof {
            assert(objs.take(n as int) =~= objs);
        }
        Ok(offsets)
    }

    /// Writes the document through `writer`: the header, each object in
    /// order with its start offset taken from the writer, the cross-reference
    /// section built from those offsets, the trailer, `startxref` with the
    /// offset of the section, and `%%EOF`. An invalid or too large document is
    /// refused before any byte is written.
    pub fn write<S: ByteSink>(&self, writer: &mut Writer<S>) -> (r: Result<(), WriteError<S::Error>>)
        requires
            old(writer).wf(),
        ensures
            final(writer).wf(),
            check(*self) is Err ==> r == Err::<(), WriteError<S::Error>>(
                WriteError::Invalid(check(*self)->Err_0),
            ) && *final(writer) == *old(writer),
            check(*self) is Ok && too_large(*self, old(writer).written().len()) ==> r == Err::<
                (),
                WriteError<S::Error>,
            >(WriteError::TooLarge) && *final(writer) == *old(writer),
            check(*self) is Ok && !too_large(*self, old(writer).written().len()) ==> {
                &&& r is Ok ==> final(writer).written() == old(writer).written() + document_bytes(
                    *self,
                    old(writer).written().len(),
                )
                &&& r is Ok ==> final(writer).sink().taken() == old(writer).sink().taken()
                    + document_bytes(*self, old(writer).written().len())
                &&& old(writer).sink().infallible() ==> r is Ok
                &&& r is Err ==> (r matches Err(WriteError::Sink(_)))
                &&& r is Err ==> final(writer).written().is_prefix_of(
                    old(writer).written() + document_bytes(*self, old(writer).written().len()),
                )
            },
    {
        match self.validate() {
            Err(e) => {
                return Err(WriteError::Invalid(e));
            },
            Ok(()) => {},
        }
        let base = writer.pos();
        let ghost objs = self.objects@;
        let ghost before = writer.written();
        let ghost held = writer.sink().taken();
        let ghost doc = document_bytes(*self, base as nat);
        let ghost offs = Seq::new(objs.len(), |j: int| object_offset(objs, base as nat, j));
        let (encoded, xref_at) = match encode_all(&self.objects, base) {
            None => {
                return Err(WriteError::TooLarge);
            },
            Some(p) => p,
        };
        let end = self.file_end(base, xref_at);
        if end > usize::MAX as u64 {
            return Err(WriteError::TooLarge);
        }
        proof {
            lemma_objects_len(objs);
            reveal_strlit("%PDF-1.7\n");
        }
        let head = header_bytes();
        match writer.write(head.as_slice()) {
            Err(e) => {
                proof {
                    lemma_emitted_prefix(before, Seq::empty(), Seq::empty(), header(), doc.skip(15));
                    assert(doc =~= header() + doc.skip(15));
                    assert(before + Seq::<u8>::empty() + Seq::<u8>::empty() =~= before);
                    assert(Seq::<u8>::empty() + header() + doc.skip(15) =~= doc);
                }
                return Err(WriteError::Sink(e));
            },
            Ok(()) => {},
        }
        let n = self.objects.len();
        let ghost rest = xref_section(objs, base as nat) + trailer(n as nat, self.root as nat)
            + closing(xref_at as nat);
        let offsets = match self.emit_objects(writer, &encoded, Ghost(before), Ghost(held)) {
            Err(e) => {
                proof {
                    let i = choose|i: int|
                        0 <= i <= objs.len() && writer.written() == before + header()
                            + objects_bytes(#[trigger] objs.take(i));
                    lemma_objects_prefix(objs, i);
                    lemma_emitted_prefix(
                        before,
                        header(),
                        objects_bytes(objs.take(i)),
                        objects_bytes(objs),
                        rest,
                    );
                    assert(doc =~= header() + objects_bytes(objs) + rest);
                }
                return Err(WriteError::Sink(e));
            },
            Ok(o) => o,
        };
        let xref_pos = writer.pos();
        let xref = xref_bytes(&offsets, Ghost(offs));
        let ghost last = trailer(n as nat, self.root as nat) + closing(xref_at as nat);
        assert(doc =~= header() + objects_bytes(objs) + xref@ + last);
        match writer.write(xref.as_slice()) {
            Err(e) => {
                proof {
                    lemma_emitted_prefix(
                        before,
                        header(),
                        objects_bytes(objs),
                        objects_bytes(objs),
                        xref@ + last,
                    );
                    assert(doc =~= header() + objects_bytes(objs) + (xref@ + last));
                }
                return Err(WriteError::Sink(e));
            },
            Ok(()) => {},
        }
        let tail = tail_bytes(n as u64, self.root, xref_pos as u64);
        match writer.write(tail.as_slice()) {
            Err(e) => {
                proof {
                    lemma_emitted_prefix(
                        before,
                        header(),
                        objects_bytes(objs) + xref@,
                        objects_bytes(objs) + xref@,
                        last,
                    );
                    assert(doc =~= header() + (objects_bytes(objs) + xref@) + last);
                    assert(writer.written() =~= before + header() + (objects_bytes(objs) + xref@));
                }
                return Err(WriteError::Sink(e));
            },
            Ok(()) => {},
        }
        assert(writer.written() =~= before + doc);
        assert(writer.sink().taken() =~= held + doc);
        Ok(())
    }
}

} // verus!
