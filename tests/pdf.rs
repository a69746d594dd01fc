use pdfwrite::{
    encode_object, has_length_key, push_decimal, push_padded, Body, BoundedSink, Document,
    IndirectObject, Invalid, SinkFull, WriteError, Writer,
};

fn dict(text: &str) -> Body {
    Body::Dictionary(text.as_bytes().to_vec())
}

fn stream(entries: &str, payload: &str) -> Body {
    Body::Stream { entries: entries.as_bytes().to_vec(), payload: payload.as_bytes().to_vec() }
}

fn render(doc: &Document) -> Vec<u8> {
    let mut writer = Writer::new(Vec::new());
    doc.write(&mut writer).expect("an in-memory sink takes every byte");
    writer.into_inner()
}

fn find(hay: &[u8], needle: &[u8]) -> Option<usize> {
    hay.windows(needle.len()).position(|w| w == needle)
}

fn two_objects() -> Document {
    let mut doc = Document::new();
    doc.add(dict("<<\n/Type /Catalog\n/Pages 2 0 R\n>>\n"));
    doc.add(dict("<<\n/Type /Pages\n/Kids []\n/Count 0\n>>\n"));
    doc
}

fn sample() -> Document {
    let mut doc = Document::new();
    doc.add(dict("<<\n/Type /Catalog\n/Pages 2 0 R\n>>\n"));
    doc.add(dict("<<\n/Type /Pages\n/Kids [3 0 R]\n/Count 1\n>>\n"));
    doc.add(dict(
        "<<\n/Type /Page\n/Parent 2 0 R\n/MediaBox [0.0 0.0 612.0 792.0]\n/Contents 4 0 R\n/Resources << /Font << /F13 5 0 R >> >>\n>>\n",
    ));
    doc.add(stream("", "BT\n/F13 10 Tf\n12 775 Td\n(Hello!) Tj\nET\n"));
    doc.add(dict(
        "<<\n/Type /Font\n/Subtype /Type1\n/Name /F13\n/BaseFont /Times-Roman\n/Encoding /MacRomanEncoding\n>>\n",
    ));
    doc
}

#[test]
fn it_works() {
    let out = render(&sample());
    assert!(out.starts_with(b"%PDF-1.7\n%\x80\x81\x82\x83\n"));
    assert!(find(&out, b"/Length 39\n>>\nstream\nBT\n").is_some());
    assert!(find(&out, b"xref\n0 6\n0000000000 65535 f\r\n").is_some());
    assert!(find(&out, b"trailer\n<<\n/Size 6\n/Root 1 0 R\n>>\n").is_some());
    assert!(out.ends_with(b"%%EOF\n"));
}

#[test]
fn pos_is_sum_of_chunk_lengths() {
    let mut writer = Writer::new(Vec::new());
    assert_eq!(writer.pos(), 0);
    let chunks: [&[u8]; 4] = [b"abc", b"", b"\x00\xff", b"0123456789"];
    let mut sum = 0;
    for c in chunks.iter() {
        writer.write(c).unwrap();
        sum += c.len();
        assert_eq!(writer.pos(), sum);
    }
    assert_eq!(sum, 15);
    assert_eq!(writer.into_inner(), b"abc\x00\xff0123456789".to_vec());
}

#[test]
fn failed_write_leaves_offset() {
    let mut writer = Writer::new(BoundedSink::new(4));
    writer.write(b"abc").unwrap();
    assert_eq!(writer.pos(), 3);
    assert_eq!(writer.write(b"de"), Err(SinkFull { capacity: 4 }));
    assert_eq!(writer.pos(), 3);
    writer.write(b"d").unwrap();
    assert_eq!(writer.pos(), 4);
    assert_eq!(writer.into_inner().into_bytes(), b"abcd".to_vec());
}

#[test]
fn stream_length_is_measured() {
    let obj = IndirectObject { number: 4, body: stream("/Filter /None\n", "BT\nET\n") };
    assert_eq!(
        encode_object(&obj),
        b"4 0 obj\n<<\n/Filter /None\n/Length 6\n>>\nstream\nBT\nET\nendstream\nendobj\n".to_vec()
    );
}

#[test]
fn empty_stream_has_length_zero() {
    let obj = IndirectObject { number: 12, body: stream("", "") };
    assert_eq!(
        encode_object(&obj),
        b"12 0 obj\n<<\n/Length 0\n>>\nstream\nendstream\nendobj\n".to_vec()
    );
}

#[test]
fn stream_payload_between_markers() {
    let payload = "BT\n/F13 10 Tf\n12 775 Td\n(Hello!) Tj\nET\n";
    let out = render(&sample());
    let start = find(&out, b"stream\n").unwrap() + 7;
    let end = find(&out, b"endstream").unwrap();
    assert_eq!(end - start, 39);
    assert_eq!(&out[start..end], payload.as_bytes());
}

#[test]
fn xref_table_is_fixed_width() {
    let out = render(&sample());
    let at = find(&out, b"xref\n").unwrap();
    let body = &out[at + 5..];
    assert!(body.starts_with(b"0 6\n"));
    let table = &body[4..];
    let trailer = find(table, b"trailer\n").unwrap();
    assert_eq!(trailer, 20 * 6);
    assert_eq!(&table[0..20], b"0000000000 65535 f\r\n");
    for k in 1..6usize {
        let entry = &table[20 * k..20 * k + 20];
        assert_eq!(&entry[10..], b" 00000 n\r\n");
        let offset: usize = std::str::from_utf8(&entry[..10]).unwrap().parse().unwrap();
        let head = format!("{} 0 obj\n", k);
        assert!(out[offset..].starts_with(head.as_bytes()));
    }
    assert_eq!(&table[20..40], b"0000000015 00000 n\r\n");
}

#[test]
fn startxref_points_at_xref() {
    let out = render(&sample());
    let text = std::str::from_utf8(&out[15..]).unwrap();
    let tail = text.rsplit("startxref\n").next().unwrap();
    let number: usize = tail.trim_end_matches("\n%%EOF\n").parse().unwrap();
    assert_eq!(&out[number..number + 5], b"xref\n");
    assert_eq!(find(&out, b"xref\n"), Some(number));
}

#[test]
fn gap_is_rejected_before_writing() {
    let mut doc = Document::new();
    doc.objects.push(IndirectObject { number: 1, body: dict("<<\n>>\n") });
    doc.objects.push(IndirectObject { number: 3, body: dict("<<\n>>\n") });
    assert_eq!(doc.validate(), Err(Invalid::Gap { expected: 2, found: 3 }));
    let mut writer = Writer::new(Vec::new());
    assert_eq!(doc.write(&mut writer), Err(WriteError::Invalid(Invalid::Gap { expected: 2, found: 3 })));
    assert_eq!(writer.pos(), 0);
    assert!(writer.into_inner().is_empty());
}

#[test]
fn first_object_must_be_one() {
    let mut doc = Document::new();
    doc.objects.push(IndirectObject { number: 0, body: dict("<<\n>>\n") });
    assert_eq!(doc.validate(), Err(Invalid::Gap { expected: 1, found: 0 }));
}

#[test]
fn empty_document_is_rejected() {
    let doc = Document::new();
    assert_eq!(doc.validate(), Err(Invalid::Empty));
    let mut writer = Writer::new(Vec::new());
    assert_eq!(doc.write(&mut writer), Err(WriteError::Invalid(Invalid::Empty)));
    assert!(writer.into_inner().is_empty());
}

#[test]
fn root_must_name_an_object() {
    let mut doc = two_objects();
    doc.root = 3;
    assert_eq!(doc.validate(), Err(Invalid::MissingRoot));
    doc.root = 0;
    assert_eq!(doc.validate(), Err(Invalid::MissingRoot));
    doc.root = 2;
    assert_eq!(doc.validate(), Ok(()));
    let out = render(&doc);
    assert!(find(&out, b"/Root 2 0 R\n").is_some());
}

#[test]
fn catalog_and_empty_pages() {
    let out = render(&two_objects());
    let expected = [
        "%PDF-1.7\n",
        "%\u{80}\u{81}\u{82}\u{83}\n",
        "1 0 obj\n<<\n/Type /Catalog\n/Pages 2 0 R\n>>\nendobj\n",
        "2 0 obj\n<<\n/Type /Pages\n/Kids []\n/Count 0\n>>\nendobj\n",
        "xref\n0 3\n",
        "0000000000 65535 f\r\n",
        "0000000015 00000 n\r\n",
        "0000000064 00000 n\r\n",
        "trailer\n<<\n/Size 3\n/Root 1 0 R\n>>\n",
        "startxref\n116\n%%EOF\n",
    ]
    .concat();
    let mut bytes = Vec::new();
    for c in expected.chars() {
        bytes.push(c as u32 as u8);
    }
    assert_eq!(out, bytes);
    assert!(out.starts_with(b"%PDF-1.7\n"));
    assert_eq!(&out[116..121], b"xref\n");
}

#[test]
fn offsets_count_from_writer_start() {
    let mut writer = Writer::new(Vec::new());
    writer.write(b"0123456789").unwrap();
    two_objects().write(&mut writer).unwrap();
    assert_eq!(writer.pos(), 10 + 116 + 9 + 20 * 3 + 34 + 20);
    let out = writer.into_inner();
    assert!(find(&out, b"0000000025 00000 n\r\n").is_some());
    assert!(out.ends_with(b"startxref\n126\n%%EOF\n"));
    assert_eq!(&out[126..131], b"xref\n");
}

#[test]
fn sink_error_is_handed_back() {
    let mut writer = Writer::new(BoundedSink::new(70));
    let r = two_objects().write(&mut writer);
    assert_eq!(r, Err(WriteError::Sink(SinkFull { capacity: 70 })));
    assert_eq!(writer.pos(), 64);
    let full = render(&two_objects());
    assert_eq!(writer.into_inner().into_bytes(), full[..64].to_vec());
}

#[test]
fn add_numbers_densely() {
    let mut doc = Document::new();
    assert_eq!(doc.add(dict("<<\n>>\n")), 1);
    assert_eq!(doc.add(dict("[]\n")), 2);
    assert_eq!(doc.objects[1].number, 2);
    assert_eq!(doc.root, 1);
}

#[test]
fn decimal_digits() {
    let mut out = Vec::new();
    push_decimal(&mut out, 0);
    out.push(b' ');
    push_decimal(&mut out, 9);
    out.push(b' ');
    push_decimal(&mut out, 10);
    out.push(b' ');
    push_decimal(&mut out, 18446744073709551615);
    assert_eq!(out, b"0 9 10 18446744073709551615".to_vec());
}

#[test]
fn padded_digits() {
    let mut out = Vec::new();
    push_padded(&mut out, 116, 10);
    push_padded(&mut out, 9999999999, 10);
    push_padded(&mut out, 1234, 2);
    assert_eq!(out, b"0000000116999999999934".to_vec());
}

#[test]
fn empty_write_changes_nothing() {
    let mut writer = Writer::new(Vec::new());
    assert_eq!(writer.write(b""), Ok(()));
    assert_eq!(writer.pos(), 0);
    assert!(writer.into_inner().is_empty());
}

#[test]
fn split_write_matches_whole_write() {
    let mut w1 = Writer::new(Vec::new());
    let mut w2 = Writer::new(Vec::new());
    w1.write(b"%PDF").unwrap();
    w1.write(b"-1.7\n").unwrap();
    w2.write(b"%PDF-1.7\n").unwrap();
    assert_eq!(w1.pos(), 9);
    assert_eq!(w2.pos(), 9);
    assert_eq!(w1.into_inner(), w2.into_inner());
}

#[test]
fn bounded_sink_fits_whole_document() {
    let full = render(&two_objects());
    let mut writer = Writer::new(BoundedSink::new(full.len()));
    assert_eq!(two_objects().write(&mut writer), Ok(()));
    assert_eq!(writer.into_inner().into_bytes(), full);
}

#[test]
fn caller_length_is_rejected() {
    let mut doc = two_objects();
    doc.add(stream("/Length 5\n", "hello"));
    assert_eq!(doc.validate(), Err(Invalid::LengthGiven { number: 3 }));
    let mut writer = Writer::new(Vec::new());
    assert_eq!(doc.write(&mut writer), Err(WriteError::Invalid(Invalid::LengthGiven { number: 3 })));
    assert!(writer.into_inner().is_empty());
}

#[test]
fn length_key_must_be_whole_name() {
    assert!(has_length_key(&b"/Length 5".to_vec()));
    assert!(has_length_key(&b"/Filter /FlateDecode /Length".to_vec()));
    assert!(has_length_key(&b"/Length/X".to_vec()));
    assert!(!has_length_key(&b"/Length1 100 /Length2 20".to_vec()));
    assert!(!has_length_key(&b"/Lengt".to_vec()));
    assert!(!has_length_key(&Vec::new()));
    let mut doc = two_objects();
    doc.add(stream("/Length1 3\n", "abc"));
    assert_eq!(doc.validate(), Ok(()));
}

#[test]
fn gap_reported_before_length() {
    let mut doc = Document::new();
    doc.objects.push(IndirectObject { number: 1, body: stream("/Length 1\n", "a") });
    doc.objects.push(IndirectObject { number: 5, body: dict("<<\n>>\n") });
    assert_eq!(doc.validate(), Err(Invalid::Gap { expected: 2, found: 5 }));
}
