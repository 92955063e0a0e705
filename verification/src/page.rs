//! The decisions of root extraction: which stream carries the page's
//! content, which dictionary holds its resources, and what its media
//! rectangle is.  The surrounding document reading is left to the caller;
//! these functions work on plain values it hands over.

use vstd::prelude::*;
use crate::model::TranscodeError;
use crate::object::Object;
use crate::object::ObjView;
use crate::object::SourceId;
use crate::object::view_arr_props;
use crate::object::view_obj;
use crate::table::SourceTable;

verus! {

/// A numeric bound of the media rectangle: an integer, or the bit pattern
/// of a real number.
#[derive(Clone, Copy, Debug, PartialEq, Eq, Structural)]
pub enum Number {
    Int(i64),
    RealBits(u32),
}

/// The four bounds of a page's media rectangle.
#[derive(Clone, Copy, Debug, PartialEq, Eq, Structural)]
pub struct MediaBox {
    pub lower_x: Number,
    pub lower_y: Number,
    pub upper_x: Number,
    pub upper_y: Number,
}

/// Whether a value is numeric.
pub open spec fn is_numeric(o: ObjView) -> bool {
    o is Integer || o is Real
}

/// The numeric value a media-box entry carries.
pub open spec fn num_val(o: ObjView) -> Number {
    match o {
        ObjView::Integer(v) => Number::Int(v as i64),
        ObjView::Real(bits) => Number::RealBits(bits),
        _ => Number::Int(0),
    }
}

/// Selects the single content stream of a page.
///
/// A page whose content is split across more than one stream is rejected
/// rather than silently concatenated; a page with none, or whose content
/// object is not a stream, is an unexpected kind; a content identifier
/// absent from the table is a dangling reference.
pub fn page_content_stream(content_ids: &Vec<SourceId>, table: &SourceTable) -> (r: Result<
    Object,
    TranscodeError,
>)
    ensures
        content_ids@.len() > 1 ==> r == Err::<Object, TranscodeError>(
            TranscodeError::UnsupportedMultiStreamPage,
        ),
        content_ids@.len() == 0 ==> r == Err::<Object, TranscodeError>(
            TranscodeError::UnexpectedObjectKind,
        ),
        content_ids@.len() == 1 ==> {
            if !table@.contains_key(content_ids@[0]) {
                r == Err::<Object, TranscodeError>(
                    TranscodeError::DanglingReference(content_ids@[0]),
                )
            } else if table@[content_ids@[0]] is Stream {
                r matches Ok(o) && view_obj(o) == table@[content_ids@[0]]
            } else {
                r == Err::<Object, TranscodeError>(TranscodeError::UnexpectedObjectKind)
            }
        },
{
    if content_ids.len() > 1 {
        return Err(TranscodeError::UnsupportedMultiStreamPage);
    }
    if content_ids.len() == 0 {
        return Err(TranscodeError::UnexpectedObjectKind);
    }
    match table.get(content_ids[0]) {
        None => Err(TranscodeError::DanglingReference(content_ids[0])),
        Some(o) => {
            if let Object::Stream(_, _) = o {
                Ok(o.deep_clone())
            } else {
                Err(TranscodeError::UnexpectedObjectKind)
            }
        },
    }
}

/// Picks the page's resource dictionary: the directly attached one if
/// present, else the dictionary of the first fallback identifier, else an
/// empty dictionary.
pub fn pick_resources(
    direct: &Option<Object>,
    fallback_ids: &Vec<SourceId>,
    table: &SourceTable,
) -> (r: Result<Object, TranscodeError>)
    ensures
        (direct matches Some(o) ==> {
            if view_obj(*o) is Dict {
                r matches Ok(d) && view_obj(d) == view_obj(*o)
            } else {
                r == Err::<Object, TranscodeError>(TranscodeError::UnexpectedObjectKind)
            }
        }),
        direct is None && fallback_ids@.len() > 0 ==> {
            if !table@.contains_key(fallback_ids@[0]) {
                r == Err::<Object, TranscodeError>(
                    TranscodeError::DanglingReference(fallback_ids@[0]),
                )
            } else if table@[fallback_ids@[0]] is Dict {
                r matches Ok(d) && view_obj(d) == table@[fallback_ids@[0]]
            } else {
                r == Err::<Object, TranscodeError>(TranscodeError::UnexpectedObjectKind)
            }
        },
        direct is None && fallback_ids@.len() == 0 ==> (r matches Ok(d) && view_obj(d)
            == ObjView::Dict(Seq::empty())),
{
    match direct {
        Some(o) => {
            if let Object::Dictionary(_) = o {
                Ok(o.deep_clone())
            } else {
                Err(TranscodeError::UnexpectedObjectKind)
            }
        },
        None => {
            if fallback_ids.len() > 0 {
                match table.get(fallback_ids[0]) {
                    None => Err(TranscodeError::DanglingReference(fallback_ids[0])),
                    Some(o) => {
                        if let Object::Dictionary(_) = o {
                            Ok(o.deep_clone())
                        } else {
                            Err(TranscodeError::UnexpectedObjectKind)
                        }
                    },
                }
            } else {
                let empty: Vec<(Vec<u8>, Object)> = Vec::new();
                proof {
                    assert(crate::object::view_entries(empty@) =~= Seq::<(
                        Seq<u8>,
                        ObjView,
                    )>::empty());
                }
                Ok(Object::Dictionary(empty))
            }
        },
    }
}

/// Reads the four bounds of a media rectangle from its array value.
///
/// The value must be an array whose first four elements are numeric;
/// anything else is an unexpected kind.
pub fn media_box_bounds(mb: &Object) -> (r: Result<MediaBox, TranscodeError>)
    ensures
        (r matches Ok(b) ==> {
            &&& view_obj(*mb) matches ObjView::Array(s)
            &&& view_obj(*mb)->Array_0.len() >= 4
            &&& is_numeric(view_obj(*mb)->Array_0[0])
            &&& is_numeric(view_obj(*mb)->Array_0[1])
            &&& is_numeric(view_obj(*mb)->Array_0[2])
            &&& is_numeric(view_obj(*mb)->Array_0[3])
            &&& b.lower_x == num_val(view_obj(*mb)->Array_0[0])
            &&& b.lower_y == num_val(view_obj(*mb)->Array_0[1])
            &&& b.upper_x == num_val(view_obj(*mb)->Array_0[2])
            &&& b.upper_y == num_val(view_obj(*mb)->Array_0[3])
        }),
        r is Ok <==> (view_obj(*mb) matches ObjView::Array(s) && s.len() >= 4 && is_numeric(s[0])
            && is_numeric(s[1]) && is_numeric(s[2]) && is_numeric(s[3])),
        r is Err ==> r == Err::<MediaBox, TranscodeError>(TranscodeError::UnexpectedObjectKind),
{
    match mb {
        Object::Array(v) => {
            proof {
                view_arr_props(v@);
            }
            if v.len() < 4 {
                return Err(TranscodeError::UnexpectedObjectKind);
            }
            let b0 = to_number(&v[0]);
            let b1 = to_number(&v[1]);
            let b2 = to_number(&v[2]);
            let b3 = to_number(&v[3]);
            match (b0, b1, b2, b3) {
                (Some(lx), Some(ly), Some(ux), Some(uy)) => Ok(
                    MediaBox { lower_x: lx, lower_y: ly, upper_x: ux, upper_y: uy },
                ),
                _ => Err(TranscodeError::UnexpectedObjectKind),
            }
        },
        _ => Err(TranscodeError::UnexpectedObjectKind),
    }
}

/// Reads a numeric object as a bound value.
fn to_number(o: &Object) -> (r: Option<Number>)
    ensures
        r matches Some(n) ==> is_numeric(view_obj(*o)) && n == num_val(view_obj(*o)),
        r is Some <==> is_numeric(view_obj(*o)),
{
    match o {
        Object::Integer(v) => Some(Number::Int(*v)),
        Object::Real(bits) => Some(Number::RealBits(*bits)),
        _ => None,
    }
}

} // verus!

verus! {

/// The dictionary value a media-rectangle bound becomes.
pub open spec fn bound_view(n: Number) -> ObjView {
    match n {
        Number::Int(v) => ObjView::Integer(v as int),
        Number::RealBits(bits) => ObjView::Real(bits),
    }
}

/// The bytes of the name "Type".
pub open spec fn type_key() -> Seq<u8> {
    seq![84u8, 121u8, 112u8, 101u8]
}

/// The bytes of the name "Subtype".
pub open spec fn subtype_key() -> Seq<u8> {
    seq![83u8, 117u8, 98u8, 116u8, 121u8, 112u8, 101u8]
}

/// The bytes of the name "XObject".
pub open spec fn xobject_name() -> Seq<u8> {
    seq![88u8, 79u8, 98u8, 106u8, 101u8, 99u8, 116u8]
}

/// The bytes of the name "Form".
pub open spec fn form_name() -> Seq<u8> {
    seq![70u8, 111u8, 114u8, 109u8]
}

/// The bytes of the name "BBox".
pub open spec fn bbox_key() -> Seq<u8> {
    seq![66u8, 66u8, 111u8, 120u8]
}

/// The bytes of the name "Resources".
pub open spec fn resources_key() -> Seq<u8> {
    seq![82u8, 101u8, 115u8, 111u8, 117u8, 114u8, 99u8, 101u8, 115u8]
}

/// Copies a byte string into a vector.
fn name_bytes(text: &[u8]) -> (r: Vec<u8>)
    ensures
        r@ == text@,
{
    vstd::slice::slice_to_vec(text)
}

/// Converts a media-rectangle bound back into an object.
pub fn bound_object(n: Number) -> (r: Object)
    ensures
        view_obj(r) == bound_view(n),
{
    match n {
        Number::Int(v) => Object::Integer(v),
        Number::RealBits(bits) => Object::Real(bits),
    }
}

/// Assembles the dictionary of the form XObject the extracted graphic
/// becomes: the content stream's own entries, followed by the XObject
/// type keys, the bounding box, and the page's resources.
pub fn form_xobject_dict(
    entries: Vec<(Vec<u8>, Object)>,
    bounds: &MediaBox,
    resources: Object,
) -> (r: Vec<(Vec<u8>, Object)>)
    ensures
        crate::object::view_entries(r@) == crate::object::view_entries(entries@) + seq![
            (type_key(), ObjView::Name(xobject_name())),
            (subtype_key(), ObjView::Name(form_name())),
            (
                bbox_key(),
                ObjView::Array(
                    seq![
                        bound_view(bounds.lower_x),
                        bound_view(bounds.lower_y),
                        bound_view(bounds.upper_x),
                        bound_view(bounds.upper_y),
                    ],
                ),
            ),
            (resources_key(), view_obj(resources)),
        ],
{
    let ghost e0 = entries@;
    let mut r = entries;
    let mut bbox: Vec<Object> = Vec::new();
    bbox.push(bound_object(bounds.lower_x));
    bbox.push(bound_object(bounds.lower_y));
    bbox.push(bound_object(bounds.upper_x));
    bbox.push(bound_object(bounds.upper_y));
    proof {
        crate::object::view_arr_props(bbox@);
        assert(bbox@.len() == 4);
        assert(view_obj(bbox@[0]) == bound_view(bounds.lower_x));
        assert(view_obj(bbox@[1]) == bound_view(bounds.lower_y));
        assert(view_obj(bbox@[2]) == bound_view(bounds.upper_x));
        assert(view_obj(bbox@[3]) == bound_view(bounds.upper_y));
        assert(crate::object::view_arr(bbox@) =~= seq![
            bound_view(bounds.lower_x),
            bound_view(bounds.lower_y),
            bound_view(bounds.upper_x),
            bound_view(bounds.upper_y),
        ]);
    }
    let k_type = name_bytes(&[84u8, 121u8, 112u8, 101u8]);
    let n_xobject = name_bytes(&[88u8, 79u8, 98u8, 106u8, 101u8, 99u8, 116u8]);
    let k_subtype = name_bytes(&[83u8, 117u8, 98u8, 116u8, 121u8, 112u8, 101u8]);
    let n_form = name_bytes(&[70u8, 111u8, 114u8, 109u8]);
    let k_bbox = name_bytes(&[66u8, 66u8, 111u8, 120u8]);
    let k_resources = name_bytes(&[82u8, 101u8, 115u8, 111u8, 117u8, 114u8, 99u8, 101u8, 115u8]);
    proof {
        assert(k_type@ =~= type_key());
        assert(n_xobject@ =~= xobject_name());
        assert(k_subtype@ =~= subtype_key());
        assert(n_form@ =~= form_name());
        assert(k_bbox@ =~= bbox_key());
        assert(k_resources@ =~= resources_key());
    }
    let ghost g1 = r@;
    r.push((k_type, Object::Name(n_xobject)));
    proof {
        assert(r@.drop_last() =~= g1);
        crate::object::view_entries_props(r@);
        crate::object::view_entries_props(g1);
        assert forall|q: int| 0 <= q < g1.len() implies crate::object::view_entries(r@)[q]
            == crate::object::view_entries(g1)[q] by {
            assert(r@[q] == g1[q]);
        }
        assert(crate::object::view_entries(r@)[g1.len() as int] == (type_key(), ObjView::Name(xobject_name())));
        assert(crate::object::view_entries(r@) =~= crate::object::view_entries(g1).push(
            (type_key(), ObjView::Name(xobject_name())),
        ));
    }
    let ghost g2 = r@;
    r.push((k_subtype, Object::Name(n_form)));
    proof {
        assert(r@.drop_last() =~= g2);
        crate::object::view_entries_props(r@);
        crate::object::view_entries_props(g2);
        assert forall|q: int| 0 <= q < g2.len() implies crate::object::view_entries(r@)[q]
            == crate::object::view_entries(g2)[q] by {
            assert(r@[q] == g2[q]);
        }
        assert(crate::object::view_entries(r@)[g2.len() as int] == (subtype_key(), ObjView::Name(form_name())));
        assert(crate::object::view_entries(r@) =~= crate::object::view_entries(g2).push(
            (subtype_key(), ObjView::Name(form_name())),
        ));
    }
    let ghost g3 = r@;
    r.push((k_bbox, Object::Array(bbox)));
    proof {
        assert(r@.drop_last() =~= g3);
        crate::object::view_entries_props(r@);
        crate::object::view_entries_props(g3);
        assert forall|q: int| 0 <= q < g3.len() implies crate::object::view_entries(r@)[q]
            == crate::object::view_entries(g3)[q] by {
            assert(r@[q] == g3[q]);
        }
        assert(crate::object::view_entries(r@)[g3.len() as int] == (bbox_key(), ObjView::Array(
                seq![
                    bound_view(bounds.lower_x),
                    bound_view(bounds.lower_y),
                    bound_view(bounds.upper_x),
                    bound_view(bounds.upper_y),
                ],
            )));
        assert(crate::object::view_entries(r@) =~= crate::object::view_entries(g3).push(
            (bbox_key(), ObjView::Array(
                seq![
                    bound_view(bounds.lower_x),
                    bound_view(bounds.lower_y),
                    bound_view(bounds.upper_x),
                    bound_view(bounds.upper_y),
                ],
            )),
        ));
    }
    let ghost g4 = r@;
    r.push((k_resources, resources));
    proof {
        assert(r@.drop_last() =~= g4);
        crate::object::view_entries_props(r@);
        crate::object::view_entries_props(g4);
        assert forall|q: int| 0 <= q < g4.len() implies crate::object::view_entries(r@)[q]
            == crate::object::view_entries(g4)[q] by {
            assert(r@[q] == g4[q]);
        }
        assert(crate::object::view_entries(r@)[g4.len() as int] == (resources_key(), view_obj(resources)));
        assert(crate::object::view_entries(r@) =~= crate::object::view_entries(g4).push(
            (resources_key(), view_obj(resources)),
        ));
        assert(crate::object::view_entries(r@) =~= crate::object::view_entries(e0) + seq![
            (type_key(), ObjView::Name(xobject_name())),
            (subtype_key(), ObjView::Name(form_name())),
            (
                bbox_key(),
                ObjView::Array(
                    seq![
                        bound_view(bounds.lower_x),
                        bound_view(bounds.lower_y),
                        bound_view(bounds.upper_x),
                        bound_view(bounds.upper_y),
                    ],
                ),
            ),
            (resources_key(), view_obj(resources)),
        ]);
    }
    r
}

} // verus!
