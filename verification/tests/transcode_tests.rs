use pdf_transcode::IdAllocator;
use pdf_transcode::Object;
use pdf_transcode::SourceId;
use pdf_transcode::TargetId;
use pdf_transcode::TargetObject;
use pdf_transcode::model::TranscodeError;
use pdf_transcode::resolve::transcode_subtree;
use pdf_transcode::table::DedupTable;
use pdf_transcode::table::SourceTable;
use pdf_transcode::transcode::transcode_value;

fn sid(number: u32, generation: u16) -> SourceId {
    SourceId { number, generation }
}

fn find(out: &[(TargetId, TargetObject)], id: u64) -> &TargetObject {
    for (tid, obj) in out {
        if tid.value == id {
            return obj;
        }
    }
    panic!("no definition for identifier {}", id);
}

fn count_id(out: &[(TargetId, TargetObject)], id: u64) -> usize {
    out.iter().filter(|(tid, _)| tid.value == id).count()
}

fn as_dict(t: &TargetObject) -> &Vec<(Vec<u8>, TargetObject)> {
    match t {
        TargetObject::Dictionary(d) => d,
        _ => panic!("expected a dictionary"),
    }
}

fn dict_get<'a>(d: &'a [(Vec<u8>, TargetObject)], key: &[u8]) -> Option<&'a TargetObject> {
    d.iter().find(|(k, _)| k == key).map(|(_, v)| v)
}

fn ref_value(t: &TargetObject) -> u64 {
    match t {
        TargetObject::Reference(id) => id.value,
        _ => panic!("expected a reference"),
    }
}

#[test]
fn allocator_is_strictly_increasing_from_one() {
    let mut alloc = IdAllocator::new();
    let a = alloc.bump();
    let b = alloc.bump();
    let c = alloc.bump();
    assert_eq!(a.value, 1);
    assert_eq!(b.value, 2);
    assert_eq!(c.value, 3);
    assert!(alloc.can_bump());
}

#[test]
fn closure_chain_takes_one_wave_per_level() {
    // root -> (1,0) -> (2,0): a reference chain of depth 2
    let mut table = SourceTable::new();
    table.insert(
        sid(1, 0),
        Object::Dictionary(vec![(b"Next".to_vec(), Object::Reference(sid(2, 0)))]),
    );
    table.insert(sid(2, 0), Object::Integer(7));
    let root = Object::Dictionary(vec![(b"First".to_vec(), Object::Reference(sid(1, 0)))]);
    let mut alloc = IdAllocator::new();
    let (root_id, out, waves) = transcode_subtree(&table, &root, &mut alloc, 16).unwrap();
    assert_eq!(waves, 2);
    assert_eq!(root_id.value, 1);
    assert_eq!(out.len(), 3);
    // every identifier ever allocated has exactly one definition
    for id in 1..=3u64 {
        assert_eq!(count_id(&out, id), 1);
    }
    // and every reference in the output resolves within the output
    let d = as_dict(find(&out, 1));
    let first = ref_value(dict_get(d, b"First").unwrap());
    let d1 = as_dict(find(&out, first));
    let next = ref_value(dict_get(d1, b"Next").unwrap());
    assert!(matches!(find(&out, next), TargetObject::Integer(7)));
}

#[test]
fn deduplication_of_shared_reference() {
    let mut table = SourceTable::new();
    table.insert(sid(5, 0), Object::Str(b"shared".to_vec()));
    let root = Object::Dictionary(vec![
        (b"X".to_vec(), Object::Reference(sid(5, 0))),
        (b"Y".to_vec(), Object::Reference(sid(5, 0))),
    ]);
    let mut alloc = IdAllocator::new();
    let (_, out, _) = transcode_subtree(&table, &root, &mut alloc, 16).unwrap();
    // exactly one object holds the shared value, and both locations carry
    // the same target identifier
    assert_eq!(out.len(), 2);
    let d = as_dict(find(&out, 1));
    let x = ref_value(dict_get(d, b"X").unwrap());
    let y = ref_value(dict_get(d, b"Y").unwrap());
    assert_eq!(x, y);
    assert_eq!(count_id(&out, x), 1);
    assert!(matches!(find(&out, x), TargetObject::Str(s) if s == b"shared"));
}

#[test]
fn primitive_round_trip() {
    let root = Object::Dictionary(vec![
        (b"Absent".to_vec(), Object::Null),
        (b"Flag".to_vec(), Object::Boolean(true)),
        (b"Count".to_vec(), Object::Integer(-42)),
        (b"Scale".to_vec(), Object::Real(1.5f32.to_bits())),
        (b"Kind".to_vec(), Object::Name(b"Page".to_vec())),
        (b"Title".to_vec(), Object::Str(b"hello".to_vec())),
    ]);
    let table = SourceTable::new();
    let mut alloc = IdAllocator::new();
    let (_, out, waves) = transcode_subtree(&table, &root, &mut alloc, 16).unwrap();
    assert_eq!(waves, 0);
    assert_eq!(out.len(), 1);
    let d = as_dict(&out[0].1);
    // a null-valued key is omitted, everything else reads back equal
    assert!(dict_get(d, b"Absent").is_none());
    assert_eq!(d.len(), 5);
    assert!(matches!(dict_get(d, b"Flag").unwrap(), TargetObject::Boolean(true)));
    assert!(matches!(dict_get(d, b"Count").unwrap(), TargetObject::Integer(-42)));
    assert!(
        matches!(dict_get(d, b"Scale").unwrap(), TargetObject::Real(bits) if *bits == 1.5f32.to_bits())
    );
    assert!(matches!(dict_get(d, b"Kind").unwrap(), TargetObject::Name(n) if n == b"Page"));
    assert!(matches!(dict_get(d, b"Title").unwrap(), TargetObject::Str(s) if s == b"hello"));
}

#[test]
fn stream_payload_is_bit_identical() {
    let payload: Vec<u8> = vec![0x00, 0xff, 0x10, 0x80, 0x7f];
    let mut table = SourceTable::new();
    table.insert(
        sid(9, 0),
        Object::Stream(
            vec![
                (b"Length".to_vec(), Object::Integer(5)),
                (b"Extra".to_vec(), Object::Reference(sid(10, 0))),
            ],
            payload.clone(),
        ),
    );
    table.insert(sid(10, 0), Object::Boolean(false));
    let root = Object::Dictionary(vec![(b"S".to_vec(), Object::Reference(sid(9, 0)))]);
    let mut alloc = IdAllocator::new();
    let (_, out, _) = transcode_subtree(&table, &root, &mut alloc, 16).unwrap();
    let d = as_dict(find(&out, 1));
    let stream_id = ref_value(dict_get(d, b"S").unwrap());
    match find(&out, stream_id) {
        TargetObject::Stream(sd, bytes) => {
            // the raw payload is copied verbatim; only the dictionary is
            // transcoded
            assert_eq!(bytes, &payload);
            assert!(matches!(dict_get(sd, b"Length").unwrap(), TargetObject::Integer(5)));
            let extra = ref_value(dict_get(sd, b"Extra").unwrap());
            assert!(matches!(find(&out, extra), TargetObject::Boolean(false)));
        },
        _ => panic!("expected a stream definition"),
    }
}

#[test]
fn cycle_of_two_objects_terminates() {
    let mut table = SourceTable::new();
    table.insert(
        sid(1, 0),
        Object::Dictionary(vec![(b"Other".to_vec(), Object::Reference(sid(2, 0)))]),
    );
    table.insert(
        sid(2, 0),
        Object::Dictionary(vec![(b"Other".to_vec(), Object::Reference(sid(1, 0)))]),
    );
    let root = Object::Reference(sid(1, 0));
    let mut alloc = IdAllocator::new();
    let (_, out, _) = transcode_subtree(&table, &root, &mut alloc, 64).unwrap();
    // the root definition plus exactly two mutually referencing objects
    assert_eq!(out.len(), 3);
    let a_id = ref_value(&out[0].1);
    let a = as_dict(find(&out, a_id));
    let b_id = ref_value(dict_get(a, b"Other").unwrap());
    assert_ne!(a_id, b_id);
    let b = as_dict(find(&out, b_id));
    assert_eq!(ref_value(dict_get(b, b"Other").unwrap()), a_id);
}

#[test]
fn dangling_reference_is_fatal() {
    let table = SourceTable::new();
    let root = Object::Dictionary(vec![(b"R".to_vec(), Object::Reference(sid(99, 0)))]);
    let mut alloc = IdAllocator::new();
    let r = transcode_subtree(&table, &root, &mut alloc, 16);
    assert_eq!(r.err().unwrap(), TranscodeError::DanglingReference(sid(99, 0)));
}

#[test]
fn integer_out_of_range_is_fatal() {
    let table = SourceTable::new();
    let root = Object::Dictionary(vec![(b"N".to_vec(), Object::Integer(1 << 40))]);
    let mut alloc = IdAllocator::new();
    let r = transcode_subtree(&table, &root, &mut alloc, 16);
    assert_eq!(r.err().unwrap(), TranscodeError::IntegerOutOfRange);
}

#[test]
fn integer_at_width_limits_is_kept() {
    let table = SourceTable::new();
    let root = Object::Array(vec![
        Object::Integer(i32::MAX as i64),
        Object::Integer(i32::MIN as i64),
    ]);
    let mut alloc = IdAllocator::new();
    let (_, out, _) = transcode_subtree(&table, &root, &mut alloc, 16).unwrap();
    match &out[0].1 {
        TargetObject::Array(v) => {
            assert!(matches!(v[0], TargetObject::Integer(i32::MAX)));
            assert!(matches!(v[1], TargetObject::Integer(i32::MIN)));
        },
        _ => panic!("expected an array"),
    }
}

#[test]
fn wave_ceiling_yields_graph_too_deep() {
    let mut table = SourceTable::new();
    table.insert(
        sid(1, 0),
        Object::Dictionary(vec![(b"Next".to_vec(), Object::Reference(sid(2, 0)))]),
    );
    table.insert(sid(2, 0), Object::Integer(1));
    let root = Object::Dictionary(vec![(b"First".to_vec(), Object::Reference(sid(1, 0)))]);
    let mut alloc = IdAllocator::new();
    let r = transcode_subtree(&table, &root, &mut alloc, 1);
    assert_eq!(r.err().unwrap(), TranscodeError::GraphTooDeep);
}

#[test]
fn transcode_value_reuses_recorded_identifier() {
    let mut table = SourceTable::new();
    table.insert(sid(3, 0), Object::Integer(5));
    let mut dedup = DedupTable::new();
    let mut alloc = IdAllocator::new();
    let mut work: Vec<(TargetId, Object)> = Vec::new();
    let first = transcode_value(
        &Object::Reference(sid(3, 0)),
        &table,
        &mut dedup,
        &mut alloc,
        &mut work,
    )
    .unwrap();
    let second = transcode_value(
        &Object::Reference(sid(3, 0)),
        &table,
        &mut dedup,
        &mut alloc,
        &mut work,
    )
    .unwrap();
    // the second encounter allocates nothing and defers nothing
    assert_eq!(work.len(), 1);
    assert_eq!(ref_value(&first), ref_value(&second));
}

#[test]
fn inline_stream_becomes_indirect() {
    let table = SourceTable::new();
    let root = Object::Dictionary(vec![(
        b"S".to_vec(),
        Object::Stream(vec![], b"abc".to_vec()),
    )]);
    let mut alloc = IdAllocator::new();
    let (_, out, waves) = transcode_subtree(&table, &root, &mut alloc, 16).unwrap();
    assert_eq!(waves, 1);
    assert_eq!(out.len(), 2);
    let d = as_dict(&out[0].1);
    let id = ref_value(dict_get(d, b"S").unwrap());
    assert!(matches!(find(&out, id), TargetObject::Stream(_, b) if b == b"abc"));
}

#[test]
fn dangling_reference_in_later_wave_is_fatal() {
    let mut table = SourceTable::new();
    table.insert(
        sid(1, 0),
        Object::Dictionary(vec![(b"R".to_vec(), Object::Reference(sid(99, 0)))]),
    );
    let root = Object::Dictionary(vec![(b"A".to_vec(), Object::Reference(sid(1, 0)))]);
    let mut alloc = IdAllocator::new();
    let r = transcode_subtree(&table, &root, &mut alloc, 16);
    assert_eq!(r.err().unwrap(), TranscodeError::DanglingReference(sid(99, 0)));
}

#[test]
fn out_of_range_integer_in_stream_dictionary_is_fatal() {
    let mut table = SourceTable::new();
    table.insert(
        sid(1, 0),
        Object::Stream(vec![(b"N".to_vec(), Object::Integer(1 << 40))], b"x".to_vec()),
    );
    let root = Object::Dictionary(vec![(b"S".to_vec(), Object::Reference(sid(1, 0)))]);
    let mut alloc = IdAllocator::new();
    let r = transcode_subtree(&table, &root, &mut alloc, 16);
    assert_eq!(r.err().unwrap(), TranscodeError::IntegerOutOfRange);
}

#[test]
fn null_array_element_is_kept_in_place() {
    let table = SourceTable::new();
    let root = Object::Array(vec![Object::Null, Object::Boolean(true)]);
    let mut alloc = IdAllocator::new();
    let (_, out, _) = transcode_subtree(&table, &root, &mut alloc, 16).unwrap();
    match &out[0].1 {
        TargetObject::Array(v) => {
            assert_eq!(v.len(), 2);
            assert!(matches!(v[0], TargetObject::Null));
            assert!(matches!(v[1], TargetObject::Boolean(true)));
        },
        _ => panic!("expected an array"),
    }
}
