use vstd::prelude::*;

verus! {

/// Wire identifiers of the tag kinds.
pub const TAG_END: u8 = 0;

pub const TAG_BYTE: u8 = 1;

pub const TAG_SHORT: u8 = 2;

pub const TAG_INT: u8 = 3;

pub const TAG_LONG: u8 = 4;

pub const TAG_FLOAT: u8 = 5;

pub const TAG_DOUBLE: u8 = 6;

pub const TAG_BYTE_ARRAY: u8 = 7;

pub const TAG_STRING: u8 = 8;

pub const TAG_LIST: u8 = 9;

pub const TAG_COMPOUND: u8 = 10;

pub const TAG_INT_ARRAY: u8 = 11;

pub const TAG_LONG_ARRAY: u8 = 12;

/// A decoded NBT value. Floating-point payloads are carried as their raw
/// IEEE-754 big-endian bit patterns, so that the decoder stays exact.
#[derive(Debug)]
pub enum TagValue {
    End,
    Byte(i8),
    Short(i16),
    Int(i32),
    Long(i64),
    /// 32-bit float, as raw bits.
    Float(u32),
    /// 64-bit float, as raw bits.
    Double(u64),
    ByteArray(Vec<i8>),
    Str(String),
    /// Declared element kind, then the elements.
    List(u8, Vec<TagValue>),
    /// Entries in insertion order; names are unique.
    Compound(Vec<(String, TagValue)>),
    IntArray(Vec<i32>),
    LongArray(Vec<i64>),
}

/// The mathematical model of a `TagValue`.
pub enum TagV {
    End,
    Byte(i8),
    Short(i16),
    Int(i32),
    Long(i64),
    Float(u32),
    Double(u64),
    ByteArray(Seq<i8>),
    Str(Seq<char>),
    List(u8, Seq<TagV>),
    Compound(Seq<(Seq<char>, TagV)>),
    IntArray(Seq<i32>),
    LongArray(Seq<i64>),
}

impl DeepView for TagValue {
    type V = TagV;

    open spec fn deep_view(&self) -> TagV
        decreases self,
    {
        match self {
            TagValue::End => TagV::End,
            TagValue::Byte(x) => TagV::Byte(*x),
            TagValue::Short(x) => TagV::Short(*x),
            TagValue::Int(x) => TagV::Int(*x),
            TagValue::Long(x) => TagV::Long(*x),
            TagValue::Float(x) => TagV::Float(*x),
            TagValue::Double(x) => TagV::Double(*x),
            TagValue::ByteArray(xs) => TagV::ByteArray(xs@),
            TagValue::Str(s) => TagV::Str(s@),
            TagValue::List(k, es) => TagV::List(*k, deep_list(es@)),
            TagValue::Compound(es) => TagV::Compound(deep_entries(es@)),
            TagValue::IntArray(xs) => TagV::IntArray(xs@),
            TagValue::LongArray(xs) => TagV::LongArray(xs@),
        }
    }
}

/// The models of a sequence of list elements, in order.
pub open spec fn deep_list(s: Seq<TagValue>) -> Seq<TagV>
    decreases s,
{
    if s.len() == 0 {
        Seq::empty()
    } else {
        deep_list(s.drop_last()).push(s.last().deep_view())
    }
}

/// The models of a sequence of compound entries, in order.
pub open spec fn deep_entries(s: Seq<(String, TagValue)>) -> Seq<(Seq<char>, TagV)>
    decreases s,
{
    if s.len() == 0 {
        Seq::empty()
    } else {
        deep_entries(s.drop_last()).push((s.last().0@, s.last().1.deep_view()))
    }
}

/// Pointwise description of `deep_list`, for use at an arbitrary index.
pub proof fn lemma_deep_list(s: Seq<TagValue>)
    ensures
        deep_list(s).len() == s.len(),
        forall|i: int| 0 <= i < s.len() ==> deep_list(s)[i] == (#[trigger] s[i]).deep_view(),
    decreases s,
{
    if s.len() > 0 {
        lemma_deep_list(s.drop_last());
        assert forall|i: int| 0 <= i < s.len() implies deep_list(s)[i] == (#[trigger] s[i]).deep_view() by {
            if i < s.len() - 1 {
                assert(s.drop_last()[i] == s[i]);
                assert(deep_list(s) == deep_list(s.drop_last()).push(s.last().deep_view()));
                assert(deep_list(s)[i] == deep_list(s.drop_last())[i]);
            } else {
                assert(s[i] == s.last());
            }
        }
    }
}

/// Pointwise description of `deep_entries`, for use at an arbitrary index.
pub proof fn lemma_deep_entries(s: Seq<(String, TagValue)>)
    ensures
        deep_entries(s).len() == s.len(),
        forall|i: int|
            0 <= i < s.len() ==> deep_entries(s)[i] == ((#[trigger] s[i]).0@, s[i].1.deep_view()),
    decreases s,
{
    if s.len() > 0 {
        lemma_deep_entries(s.drop_last());
        assert forall|i: int|
            0 <= i < s.len() implies deep_entries(s)[i] == ((#[trigger] s[i]).0@, s[i].1.deep_view()) by {
            if i < s.len() - 1 {
                assert(s.drop_last()[i] == s[i]);
                assert(deep_entries(s) == deep_entries(s.drop_last()).push(
                    (s.last().0@, s.last().1.deep_view()),
                ));
                assert(deep_entries(s)[i] == deep_entries(s.drop_last())[i]);
            } else {
                assert(s[i] == s.last());
            }
        }
    }
}

/// Appending one element commutes with taking models.
pub proof fn lemma_deep_list_push(s: Seq<TagValue>, v: TagValue)
    ensures
        deep_list(s.push(v)) == deep_list(s).push(v.deep_view()),
{
    assert(s.push(v).drop_last() =~= s);
    assert(s.push(v).last() == v);
}

/// Appending one entry commutes with taking models.
pub proof fn lemma_deep_entries_push(s: Seq<(String, TagValue)>, e: (String, TagValue))
    ensures
        deep_entries(s.push(e)) == deep_entries(s).push((e.0@, e.1.deep_view())),
{
    assert(s.push(e).drop_last() =~= s);
    assert(s.push(e).last() == e);
}

impl TagV {
    /// The wire identifier of this value's kind.
    pub open spec fn tag_id(self) -> u8 {
        match self {
            TagV::End => TAG_END,
            TagV::Byte(_) => TAG_BYTE,
            TagV::Short(_) => TAG_SHORT,
            TagV::Int(_) => TAG_INT,
            TagV::Long(_) => TAG_LONG,
            TagV::Float(_) => TAG_FLOAT,
            TagV::Double(_) => TAG_DOUBLE,
            TagV::ByteArray(_) => TAG_BYTE_ARRAY,
            TagV::Str(_) => TAG_STRING,
            TagV::List(_, _) => TAG_LIST,
            TagV::Compound(_) => TAG_COMPOUND,
            TagV::IntArray(_) => TAG_INT_ARRAY,
            TagV::LongArray(_) => TAG_LONG_ARRAY,
        }
    }

    /// Structural invariant of every decoded value: each list is homogeneous
    /// (every element's kind equals the declared element kind) and each
    /// compound's names are unique.
    pub open spec fn wf(self) -> bool
        decreases self,
    {
        match self {
            TagV::List(k, es) => forall|i: int|
                0 <= i < es.len() ==> (#[trigger] es[i]).tag_id() == k && es[i].wf(),
            TagV::Compound(es) => {
                &&& forall|i: int, j: int|
                    0 <= i < j < es.len() ==> (#[trigger] es[i].0) != (#[trigger] es[j].0)
                &&& forall|i: int| 0 <= i < es.len() ==> (#[trigger] es[i].1).wf()
            },
            _ => true,
        }
    }
}

impl TagValue {
    /// The wire identifier of this value's kind.
    pub fn tag_id(&self) -> (r: u8)
        ensures
            r == self.deep_view().tag_id(),
    {
        match self {
            TagValue::End => TAG_END,
            TagValue::Byte(_) => TAG_BYTE,
            TagValue::Short(_) => TAG_SHORT,
            TagValue::Int(_) => TAG_INT,
            TagValue::Long(_) => TAG_LONG,
            TagValue::Float(_) => TAG_FLOAT,
            TagValue::Double(_) => TAG_DOUBLE,
            TagValue::ByteArray(_) => TAG_BYTE_ARRAY,
            TagValue::Str(_) => TAG_STRING,
            TagValue::List(_, _) => TAG_LIST,
            TagValue::Compound(_) => TAG_COMPOUND,
            TagValue::IntArray(_) => TAG_INT_ARRAY,
            TagValue::LongArray(_) => TAG_LONG_ARRAY,
        }
    }
}

/// A decoded document: a title and a root value, whose kind is Compound.
#[derive(Debug)]
pub struct Document {
    pub title: String,
    pub root: TagValue,
}

/// The mathematical model of a `Document`.
pub struct DocV {
    pub title: Seq<char>,
    pub root: TagV,
}

impl DeepView for Document {
    type V = DocV;

    open spec fn deep_view(&self) -> DocV {
        DocV { title: self.title@, root: self.root.deep_view() }
    }
}

impl DocV {
    /// A well-formed document has a well-formed Compound at its root.
    pub open spec fn wf(self) -> bool {
        &&& self.root is Compound
        &&& self.root.wf()
    }
}

/// Everything that can go wrong while decoding.
#[derive(Clone, Copy, Debug, PartialEq, Eq, Structural)]
pub enum DecodeError {
    /// The source ran out before the bytes a field requires.
    Truncated,
    /// A bare string's bytes are not valid modified UTF-8.
    InvalidTextEncoding,
    /// A negative array length prefix.
    MalformedLength,
    /// Two entries of one compound share a name.
    DuplicateKey,
    /// A tag identifier outside the defined range.
    UnknownTagId,
    /// The envelope's root tag is not a Compound.
    NoRootCompound,
}

} // verus!
