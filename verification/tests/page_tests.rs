use pdf_transcode::Object;
use pdf_transcode::SourceId;
use pdf_transcode::model::TranscodeError;
use pdf_transcode::page::MediaBox;
use pdf_transcode::page::Number;
use pdf_transcode::page::media_box_bounds;
use pdf_transcode::page::page_content_stream;
use pdf_transcode::page::pick_resources;
use pdf_transcode::table::SourceTable;

fn sid(number: u32, generation: u16) -> SourceId {
    SourceId { number, generation }
}

#[test]
fn single_content_stream_is_selected() {
    let mut table = SourceTable::new();
    table.insert(sid(4, 0), Object::Stream(vec![], b"q Q".to_vec()));
    let r = page_content_stream(&vec![sid(4, 0)], &table).unwrap();
    assert!(matches!(r, Object::Stream(_, b) if b == b"q Q"));
}

#[test]
fn two_content_streams_are_rejected() {
    let mut table = SourceTable::new();
    table.insert(sid(4, 0), Object::Stream(vec![], b"q".to_vec()));
    table.insert(sid(5, 0), Object::Stream(vec![], b"Q".to_vec()));
    let r = page_content_stream(&vec![sid(4, 0), sid(5, 0)], &table);
    assert_eq!(r.err().unwrap(), TranscodeError::UnsupportedMultiStreamPage);
}

#[test]
fn page_without_content_is_unexpected() {
    let table = SourceTable::new();
    let r = page_content_stream(&vec![], &table);
    assert_eq!(r.err().unwrap(), TranscodeError::UnexpectedObjectKind);
}

#[test]
fn content_that_is_no_stream_is_unexpected() {
    let mut table = SourceTable::new();
    table.insert(sid(4, 0), Object::Integer(3));
    let r = page_content_stream(&vec![sid(4, 0)], &table);
    assert_eq!(r.err().unwrap(), TranscodeError::UnexpectedObjectKind);
}

#[test]
fn absent_content_identifier_is_dangling() {
    let table = SourceTable::new();
    let r = page_content_stream(&vec![sid(4, 0)], &table);
    assert_eq!(r.err().unwrap(), TranscodeError::DanglingReference(sid(4, 0)));
}

#[test]
fn direct_resources_are_taken_as_given() {
    let table = SourceTable::new();
    let direct = Some(Object::Dictionary(vec![(
        b"Font".to_vec(),
        Object::Reference(sid(7, 0)),
    )]));
    let r = pick_resources(&direct, &vec![], &table).unwrap();
    match r {
        Object::Dictionary(d) => assert_eq!(d[0].0, b"Font".to_vec()),
        _ => panic!("expected a dictionary"),
    }
}

#[test]
fn fallback_resources_are_resolved() {
    let mut table = SourceTable::new();
    table.insert(sid(8, 0), Object::Dictionary(vec![]));
    let r = pick_resources(&None, &vec![sid(8, 0)], &table).unwrap();
    assert!(matches!(r, Object::Dictionary(d) if d.is_empty()));
}

#[test]
fn absent_fallback_resources_are_dangling() {
    let table = SourceTable::new();
    let r = pick_resources(&None, &vec![sid(8, 0)], &table);
    assert_eq!(r.err().unwrap(), TranscodeError::DanglingReference(sid(8, 0)));
}

#[test]
fn missing_resources_default_to_empty() {
    let table = SourceTable::new();
    let r = pick_resources(&None, &vec![], &table).unwrap();
    assert!(matches!(r, Object::Dictionary(d) if d.is_empty()));
}

#[test]
fn media_box_reads_four_numeric_bounds() {
    let mb = Object::Array(vec![
        Object::Integer(0),
        Object::Integer(0),
        Object::Real(612.0f32.to_bits()),
        Object::Integer(792),
    ]);
    let b = media_box_bounds(&mb).unwrap();
    assert_eq!(
        b,
        MediaBox {
            lower_x: Number::Int(0),
            lower_y: Number::Int(0),
            upper_x: Number::RealBits(612.0f32.to_bits()),
            upper_y: Number::Int(792),
        }
    );
}

#[test]
fn short_media_box_is_unexpected() {
    let mb = Object::Array(vec![Object::Integer(0), Object::Integer(0), Object::Integer(612)]);
    assert_eq!(media_box_bounds(&mb).err().unwrap(), TranscodeError::UnexpectedObjectKind);
}

#[test]
fn non_numeric_media_box_entry_is_unexpected() {
    let mb = Object::Array(vec![
        Object::Integer(0),
        Object::Str(b"x".to_vec()),
        Object::Integer(612),
        Object::Integer(792),
    ]);
    assert_eq!(media_box_bounds(&mb).err().unwrap(), TranscodeError::UnexpectedObjectKind);
}

#[test]
fn non_array_media_box_is_unexpected() {
    let mb = Object::Integer(5);
    assert_eq!(media_box_bounds(&mb).err().unwrap(), TranscodeError::UnexpectedObjectKind);
}

#[test]
fn form_xobject_dict_appends_the_four_keys() {
    let entries = vec![(b"Length".to_vec(), Object::Integer(3))];
    let bounds = MediaBox {
        lower_x: Number::Int(0),
        lower_y: Number::Int(0),
        upper_x: Number::Int(612),
        upper_y: Number::Int(792),
    };
    let d = pdf_transcode::page::form_xobject_dict(entries, &bounds, Object::Dictionary(vec![]));
    assert_eq!(d.len(), 5);
    assert_eq!(d[0].0, b"Length".to_vec());
    assert_eq!(d[1].0, b"Type".to_vec());
    assert!(matches!(&d[1].1, Object::Name(n) if n == b"XObject"));
    assert_eq!(d[2].0, b"Subtype".to_vec());
    assert!(matches!(&d[2].1, Object::Name(n) if n == b"Form"));
    assert_eq!(d[3].0, b"BBox".to_vec());
    assert!(matches!(&d[3].1, Object::Array(v) if v.len() == 4));
    assert_eq!(d[4].0, b"Resources".to_vec());
}
