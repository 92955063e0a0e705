//! The object model shared by the source and target sides of a transcoding
//! run, together with its mathematical views.
//!
//! Source objects live in an identifier space of `(number, generation)`
//! pairs; target objects live in a space of single integers issued by the
//! allocator.  Real numbers are carried as their raw bit pattern: the
//! transcoder copies them verbatim and never computes with them.

use vstd::prelude::*;
use crate::alloc_id::TargetId;

verus! {

/// An identifier in the source document's table: a `(number, generation)`
/// pair, stable for the lifetime of the read-only source.
#[derive(Clone, Copy, Debug, PartialEq, Eq, Structural)]
pub struct SourceId {
    pub number: u32,
    pub generation: u16,
}

/// An object as read from the source document.
pub enum Object {
    Null,
    Boolean(bool),
    Integer(i64),
    /// The bit pattern of a real number, copied verbatim.
    Real(u32),
    Name(Vec<u8>),
    Str(Vec<u8>),
    Array(Vec<Object>),
    Dictionary(Vec<(Vec<u8>, Object)>),
    /// A stream: its dictionary entries plus its raw byte payload.
    Stream(Vec<(Vec<u8>, Object)>, Vec<u8>),
    Reference(SourceId),
}

/// An object as it stands in the target document: primitives copied by
/// value, integers narrowed to the target's 32-bit width, and every
/// indirection replaced by a freshly allocated target identifier.
pub enum TargetObject {
    Null,
    Boolean(bool),
    Integer(i32),
    Real(u32),
    Name(Vec<u8>),
    Str(Vec<u8>),
    Array(Vec<TargetObject>),
    Dictionary(Vec<(Vec<u8>, TargetObject)>),
    Stream(Vec<(Vec<u8>, TargetObject)>, Vec<u8>),
    Reference(TargetId),
}

/// The mathematical view of a source object.
pub enum ObjView {
    Null,
    Boolean(bool),
    Integer(int),
    Real(u32),
    Name(Seq<u8>),
    Str(Seq<u8>),
    Array(Seq<ObjView>),
    Dict(Seq<(Seq<u8>, ObjView)>),
    Stream(Seq<(Seq<u8>, ObjView)>, Seq<u8>),
    Ref(SourceId),
}

/// The mathematical view of a target object; references carry the bare
/// identifier value.
pub enum TargetView {
    Null,
    Boolean(bool),
    Integer(int),
    Real(u32),
    Name(Seq<u8>),
    Str(Seq<u8>),
    Array(Seq<TargetView>),
    Dict(Seq<(Seq<u8>, TargetView)>),
    Stream(Seq<(Seq<u8>, TargetView)>, Seq<u8>),
    Ref(u64),
}

pub open spec fn view_obj(o: Object) -> ObjView
    decreases o,
{
    match o {
        Object::Null => ObjView::Null,
        Object::Boolean(b) => ObjView::Boolean(b),
        Object::Integer(v) => ObjView::Integer(v as int),
        Object::Real(bits) => ObjView::Real(bits),
        Object::Name(n) => ObjView::Name(n@),
        Object::Str(s) => ObjView::Str(s@),
        Object::Array(v) => ObjView::Array(view_arr(v@)),
        Object::Dictionary(d) => ObjView::Dict(view_entries(d@)),
        Object::Stream(d, b) => ObjView::Stream(view_entries(d@), b@),
        Object::Reference(sid) => ObjView::Ref(sid),
    }
}

pub open spec fn view_arr(s: Seq<Object>) -> Seq<ObjView>
    decreases s,
{
    if s.len() == 0 {
        Seq::empty()
    } else {
        view_arr(s.drop_last()).push(view_obj(s.last()))
    }
}

pub open spec fn view_entries(s: Seq<(Vec<u8>, Object)>) -> Seq<(Seq<u8>, ObjView)>
    decreases s,
{
    if s.len() == 0 {
        Seq::empty()
    } else {
        view_entries(s.drop_last()).push((s.last().0@, view_obj(s.last().1)))
    }
}

pub open spec fn view_tobj(t: TargetObject) -> TargetView
    decreases t,
{
    match t {
        TargetObject::Null => TargetView::Null,
        TargetObject::Boolean(b) => TargetView::Boolean(b),
        TargetObject::Integer(v) => TargetView::Integer(v as int),
        TargetObject::Real(bits) => TargetView::Real(bits),
        TargetObject::Name(n) => TargetView::Name(n@),
        TargetObject::Str(s) => TargetView::Str(s@),
        TargetObject::Array(v) => TargetView::Array(view_tarr(v@)),
        TargetObject::Dictionary(d) => TargetView::Dict(view_tentries(d@)),
        TargetObject::Stream(d, b) => TargetView::Stream(view_tentries(d@), b@),
        TargetObject::Reference(id) => TargetView::Ref(id.value),
    }
}

pub open spec fn view_tarr(s: Seq<TargetObject>) -> Seq<TargetView>
    decreases s,
{
    if s.len() == 0 {
        Seq::empty()
    } else {
        view_tarr(s.drop_last()).push(view_tobj(s.last()))
    }
}

pub open spec fn view_tentries(s: Seq<(Vec<u8>, TargetObject)>) -> Seq<(Seq<u8>, TargetView)>
    decreases s,
{
    if s.len() == 0 {
        Seq::empty()
    } else {
        view_tentries(s.drop_last()).push((s.last().0@, view_tobj(s.last().1)))
    }
}

/// Copies a byte vector.
pub fn copy_bytes(v: &Vec<u8>) -> (r: Vec<u8>)
    ensures
        r@ == v@,
{
    let mut r: Vec<u8> = Vec::new();
    let mut i: usize = 0;
    while i < v.len()
        invariant
            i <= v@.len(),
            r@ == v@.subrange(0, i as int),
        decreases v@.len() - i,
    {
        r.push(v[i]);
        proof {
            assert(r@ =~= v@.subrange(0, i as int + 1));
        }
        i = i + 1;
    }
    proof {
        assert(r@ =~= v@);
    }
    r
}

impl Object {
    /// A structural copy: the copy has the same view as the original.
    pub fn deep_clone(&self) -> (r: Object)
        ensures
            view_obj(r) == view_obj(*self),
        decreases *self,
    {
        match self {
            Object::Null => Object::Null,
            Object::Boolean(b) => Object::Boolean(*b),
            Object::Integer(v) => Object::Integer(*v),
            Object::Real(bits) => Object::Real(*bits),
            Object::Name(n) => Object::Name(copy_bytes(n)),
            Object::Str(s) => Object::Str(copy_bytes(s)),
            Object::Array(v) => Object::Array(clone_arr(v)),
            Object::Dictionary(d) => Object::Dictionary(clone_entries(d)),
            Object::Stream(d, b) => Object::Stream(clone_entries(d), copy_bytes(b)),
            Object::Reference(sid) => Object::Reference(*sid),
        }
    }
}

fn clone_arr(v: &Vec<Object>) -> (r: Vec<Object>)
    ensures
        view_arr(r@) == view_arr(v@),
    decreases *v,
{
    let mut r: Vec<Object> = Vec::new();
    let mut i: usize = 0;
    while i < v.len()
        invariant
            i <= v@.len(),
            r@.len() == i,
            forall|j: int| 0 <= j < i ==> view_obj(#[trigger] r@[j]) == view_obj(v@[j]),
        decreases v@.len() - i,
    {
        assert(decreases_to!(*v => v@[i as int]));
        r.push(v[i].deep_clone());
        i = i + 1;
    }
    proof {
        view_arr_props(r@);
        view_arr_props(v@);
        assert forall|j: int| 0 <= j < v@.len() implies view_arr(r@)[j] == view_arr(v@)[j] by {
            assert(view_arr(r@)[j] == view_obj(r@[j]));
            assert(view_arr(v@)[j] == view_obj(v@[j]));
        }
        assert(view_arr(r@) =~= view_arr(v@));
    }
    r
}

fn clone_entries(d: &Vec<(Vec<u8>, Object)>) -> (r: Vec<(Vec<u8>, Object)>)
    ensures
        view_entries(r@) == view_entries(d@),
    decreases *d,
{
    let mut r: Vec<(Vec<u8>, Object)> = Vec::new();
    let mut i: usize = 0;
    while i < d.len()
        invariant
            i <= d@.len(),
            r@.len() == i,
            forall|j: int| 0 <= j < i ==> (#[trigger] r@[j]).0@ == d@[j].0@ && view_obj(r@[j].1)
                == view_obj(d@[j].1),
        decreases d@.len() - i,
    {
        let entry = &d[i];
        assert(decreases_to!(*d => d@[i as int].1));
        r.push((copy_bytes(&entry.0), entry.1.deep_clone()));
        i = i + 1;
    }
    proof {
        view_entries_props(r@);
        view_entries_props(d@);
        assert forall|j: int| 0 <= j < d@.len() implies view_entries(r@)[j]
            == view_entries(d@)[j] by {
            assert(view_entries(r@)[j] == (r@[j].0@, view_obj(r@[j].1)));
            assert(view_entries(d@)[j] == (d@[j].0@, view_obj(d@[j].1)));
        }
        assert(view_entries(r@) =~= view_entries(d@));
    }
    r
}

pub proof fn view_arr_props(s: Seq<Object>)
    ensures
        view_arr(s).len() == s.len(),
        forall|i: int| 0 <= i < s.len() ==> view_arr(s)[i] == view_obj(#[trigger] s[i]),
    decreases s,
{
    if s.len() > 0 {
        view_arr_props(s.drop_last());
        assert forall|i: int| 0 <= i < s.len() implies view_arr(s)[i] == view_obj(#[trigger] s[i]) by {
            if i < s.len() - 1 {
                assert(s.drop_last()[i] == s[i]);
                assert(view_arr(s)[i] == view_arr(s.drop_last())[i]);
            } else {
                assert(view_arr(s)[i] == view_obj(s.last()));
            }
        }
    }
}

pub proof fn view_entries_props(s: Seq<(Vec<u8>, Object)>)
    ensures
        view_entries(s).len() == s.len(),
        forall|i: int| 0 <= i < s.len() ==> view_entries(s)[i]
            == ((#[trigger] s[i]).0@, view_obj(s[i].1)),
    decreases s,
{
    if s.len() > 0 {
        view_entries_props(s.drop_last());
        assert forall|i: int| 0 <= i < s.len() implies view_entries(s)[i]
            == ((#[trigger] s[i]).0@, view_obj(s[i].1)) by {
            if i < s.len() - 1 {
                assert(s.drop_last()[i] == s[i]);
                assert(view_entries(s)[i] == view_entries(s.drop_last())[i]);
            } else {
                assert(view_entries(s)[i] == (s.last().0@, view_obj(s.last().1)));
            }
        }
    }
}

pub proof fn view_tarr_props(s: Seq<TargetObject>)
    ensures
        view_tarr(s).len() == s.len(),
        forall|i: int| 0 <= i < s.len() ==> view_tarr(s)[i] == view_tobj(#[trigger] s[i]),
    decreases s,
{
    if s.len() > 0 {
        view_tarr_props(s.drop_last());
        assert forall|i: int| 0 <= i < s.len() implies view_tarr(s)[i]
            == view_tobj(#[trigger] s[i]) by {
            if i < s.len() - 1 {
                assert(s.drop_last()[i] == s[i]);
                assert(view_tarr(s)[i] == view_tarr(s.drop_last())[i]);
            } else {
                assert(view_tarr(s)[i] == view_tobj(s.last()));
            }
        }
    }
}

pub proof fn view_tentries_props(s: Seq<(Vec<u8>, TargetObject)>)
    ensures
        view_tentries(s).len() == s.len(),
        forall|i: int| 0 <= i < s.len() ==> view_tentries(s)[i]
            == ((#[trigger] s[i]).0@, view_tobj(s[i].1)),
    decreases s,
{
    if s.len() > 0 {
        view_tentries_props(s.drop_last());
        assert forall|i: int| 0 <= i < s.len() implies view_tentries(s)[i]
            == ((#[trigger] s[i]).0@, view_tobj(s[i].1)) by {
            if i < s.len() - 1 {
                assert(s.drop_last()[i] == s[i]);
                assert(view_tentries(s)[i] == view_tentries(s.drop_last())[i]);
            } else {
                assert(view_tentries(s)[i] == (s.last().0@, view_tobj(s.last().1)));
            }
        }
    }
}

} // verus!
