use vstd::prelude::*;

use vstd::string::StringExecFns;

use crate::value::{deep_entries, deep_list, lemma_deep_entries, lemma_deep_list, DocV, Document,
    TagV, TagValue};

verus! {

/// One row of the materialized tree: a slash-delimited path, a display
/// label, and whether the row can be opened.
pub struct TreeNodeRecord {
    pub path: String,
    pub label: String,
    pub expandable: bool,
}

/// The mathematical model of a `TreeNodeRecord`.
pub struct NodeV {
    pub path: Seq<char>,
    pub label: Seq<char>,
    pub expandable: bool,
}

impl DeepView for TreeNodeRecord {
    type V = NodeV;

    open spec fn deep_view(&self) -> NodeV {
        NodeV { path: self.path@, label: self.label@, expandable: self.expandable }
    }
}

/// One decimal digit as a character.
pub open spec fn digit(d: nat) -> char {
    if d == 0 {
        '0'
    } else if d == 1 {
        '1'
    } else if d == 2 {
        '2'
    } else if d == 3 {
        '3'
    } else if d == 4 {
        '4'
    } else if d == 5 {
        '5'
    } else if d == 6 {
        '6'
    } else if d == 7 {
        '7'
    } else if d == 8 {
        '8'
    } else {
        '9'
    }
}

/// The usual decimal writing of `n`, most significant digit first.
pub open spec fn dec_str(n: nat) -> Seq<char>
    decreases n,
{
    if n < 10 {
        seq![digit(n)]
    } else {
        dec_str(n / 10).push(digit(n % 10))
    }
}

fn digit_str(d: u64) -> (r: &'static str)
    requires
        d < 10,
    ensures
        r@ == seq![digit(d as nat)],
{
    proof {
        reveal_strlit("0");
        reveal_strlit("1");
        reveal_strlit("2");
        reveal_strlit("3");
        reveal_strlit("4");
        reveal_strlit("5");
        reveal_strlit("6");
        reveal_strlit("7");
        reveal_strlit("8");
        reveal_strlit("9");
    }
    if d == 0 {
        proof {
            assert("0"@ =~= seq![digit(0)]);
        }
        "0"
    } else if d == 1 {
        proof {
            assert("1"@ =~= seq![digit(1)]);
        }
        "1"
    } else if d == 2 {
        proof {
            assert("2"@ =~= seq![digit(2)]);
        }
        "2"
    } else if d == 3 {
        proof {
            assert("3"@ =~= seq![digit(3)]);
        }
        "3"
    } else if d == 4 {
        proof {
            assert("4"@ =~= seq![digit(4)]);
        }
        "4"
    } else if d == 5 {
        proof {
            assert("5"@ =~= seq![digit(5)]);
        }
        "5"
    } else if d == 6 {
        proof {
            assert("6"@ =~= seq![digit(6)]);
        }
        "6"
    } else if d == 7 {
        proof {
            assert("7"@ =~= seq![digit(7)]);
        }
        "7"
    } else if d == 8 {
        proof {
            assert("8"@ =~= seq![digit(8)]);
        }
        "8"
    } else {
        proof {
            assert("9"@ =~= seq![digit(9)]);
        }
        "9"
    }
}

/// Writes `n` in decimal.
pub fn dec_u64(n: u64) -> (r: String)
    ensures
        r@ == dec_str(n as nat),
    decreases n,
{
    if n < 10 {
        let s = digit_str(n);
        s.to_owned()
    } else {
        let mut s = dec_u64(n / 10);
        let d = digit_str(n % 10);
        s.append(d);
        proof {
            assert(s@ =~= dec_str((n / 10) as nat).push(digit((n % 10) as nat)));
        }
        s
    }
}

/// The name under which a leaf or array kind is shown.
pub open spec fn kind_str(v: TagV) -> Seq<char> {
    match v {
        TagV::End => "End"@,
        TagV::Byte(_) => "Byte"@,
        TagV::Short(_) => "Short"@,
        TagV::Int(_) => "Int"@,
        TagV::Long(_) => "Long"@,
        TagV::Float(_) => "Float"@,
        TagV::Double(_) => "Double"@,
        TagV::ByteArray(_) => "Byte Array"@,
        TagV::Str(_) => "String"@,
        TagV::IntArray(_) => "Int Array"@,
        TagV::LongArray(_) => "Long Array"@,
        TagV::List(_, _) => "List"@,
        TagV::Compound(_) => "Compound"@,
    }
}

/// The number of immediate children a value has in the tree: compound
/// entries or list elements; every other kind is a leaf there.
pub open spec fn child_count(v: TagV) -> nat {
    match v {
        TagV::Compound(es) => es.len(),
        TagV::List(_, es) => es.len(),
        _ => 0,
    }
}

/// The label of a value shown under the path segment `seg`: for the two
/// container kinds the segment with the child count, for every other kind
/// the segment with the kind's name.
pub open spec fn spec_label(seg: Seq<char>, v: TagV) -> Seq<char> {
    match v {
        TagV::Compound(_) => seg + " ("@ + dec_str(child_count(v)) + " entries)"@,
        TagV::List(_, _) => seg + " ("@ + dec_str(child_count(v)) + " entries)"@,
        _ => seg + " ("@ + kind_str(v) + ")"@,
    }
}

/// Whether the row for `v` can be opened: only a container with at least one
/// child can.
pub open spec fn spec_expandable(v: TagV) -> bool {
    (v is Compound || v is List) && child_count(v) > 0
}

/// The rows of a full pre-order walk of `v`, whose own row carries `path`
/// and is labelled under the segment `seg`. Compound entries follow in
/// insertion order, list elements in index order; array kinds are leaves.
pub open spec fn spec_materialize(v: TagV, path: Seq<char>, seg: Seq<char>) -> Seq<NodeV>
    decreases v, 0int,
{
    let node = NodeV { path: path, label: spec_label(seg, v), expandable: spec_expandable(v) };
    match v {
        TagV::Compound(es) => seq![node] + spec_materialize_entries(es, path),
        TagV::List(_, es) => seq![node] + spec_materialize_elems(es, path, 0),
        _ => seq![node],
    }
}

/// The rows of the entries of a compound at `base`, in order.
pub open spec fn spec_materialize_entries(es: Seq<(Seq<char>, TagV)>, base: Seq<char>) -> Seq<
    NodeV,
>
    decreases es, 1int,
{
    if es.len() == 0 {
        Seq::empty()
    } else {
        spec_materialize(es[0].1, base + "/"@ + es[0].0, es[0].0) + spec_materialize_entries(
            es.drop_first(),
            base,
        )
    }
}

/// The rows of the elements of a list at `base`, the first bearing index
/// `idx`.
pub open spec fn spec_materialize_elems(es: Seq<TagV>, base: Seq<char>, idx: nat) -> Seq<NodeV>
    decreases es, 1int,
{
    if es.len() == 0 {
        Seq::empty()
    } else {
        spec_materialize(es[0], base + "/"@ + dec_str(idx), dec_str(idx))
            + spec_materialize_elems(es.drop_first(), base, idx + 1)
    }
}

/// The rows of a whole document: a pre-order walk rooted at the title.
pub open spec fn spec_materialize_doc(d: DocV) -> Seq<NodeV> {
    spec_materialize(d.root, d.title, d.title)
}


fn kind_name(v: &TagValue) -> (r: &'static str)
    ensures
        r@ == kind_str(v.deep_view()),
{
    match v {
        TagValue::End => "End",
        TagValue::Byte(_) => "Byte",
        TagValue::Short(_) => "Short",
        TagValue::Int(_) => "Int",
        TagValue::Long(_) => "Long",
        TagValue::Float(_) => "Float",
        TagValue::Double(_) => "Double",
        TagValue::ByteArray(_) => "Byte Array",
        TagValue::Str(_) => "String",
        TagValue::List(_, _) => "List",
        TagValue::Compound(_) => "Compound",
        TagValue::IntArray(_) => "Int Array",
        TagValue::LongArray(_) => "Long Array",
    }
}

fn expandable_of(v: &TagValue) -> (r: bool)
    ensures
        r == spec_expandable(v.deep_view()),
{
    match v {
        TagValue::Compound(es) => {
            proof {
                lemma_deep_entries(es@);
            }
            es.len() > 0
        },
        TagValue::List(_, es) => {
            proof {
                lemma_deep_list(es@);
            }
            es.len() > 0
        },
        _ => false,
    }
}

fn label_of(seg: &String, v: &TagValue) -> (r: String)
    ensures
        r@ == spec_label(seg@, v.deep_view()),
{
    let mut s = seg.clone();
    s.append(" (");
    match v {
        TagValue::Compound(es) => {
            proof {
                lemma_deep_entries(es@);
            }
            let n = dec_u64(es.len() as u64);
            s.append(n.as_str());
            s.append(" entries)");
        },
        TagValue::List(_, es) => {
            proof {
                lemma_deep_list(es@);
            }
            let n = dec_u64(es.len() as u64);
            s.append(n.as_str());
            s.append(" entries)");
        },
        _ => {
            s.append(kind_name(v));
            s.append(")");
        },
    }
    s
}

fn join_path(base: &String, seg: &String) -> (r: String)
    ensures
        r@ == base@ + "/"@ + seg@,
{
    let mut s = base.clone();
    s.append("/");
    s.append(seg.as_str());
    s
}

/// Appends the rows of the pre-order walk of `v` to `out`.
fn materialize_value(v: &TagValue, path: &String, seg: &String, out: &mut Vec<TreeNodeRecord>)
    ensures
        final (out).deep_view() == old(out).deep_view() + spec_materialize(
            v.deep_view(),
            path@,
            seg@,
        ),
    decreases v,
{
    let ghost base_rows = out.deep_view();
    let ghost node = NodeV {
        path: path@,
        label: spec_label(seg@, v.deep_view()),
        expandable: spec_expandable(v.deep_view()),
    };
    let label = label_of(seg, v);
    let expandable = expandable_of(v);
    out.push(TreeNodeRecord { path: path.clone(), label, expandable });
    proof {
        assert(out.deep_view() =~= base_rows + seq![node]);
    }
    match v {
        TagValue::Compound(es) => {
            proof {
                lemma_deep_entries(es@);
            }
            let ghost dees = deep_entries(es@);
            proof {
                assert(dees.skip(0) =~= dees);
            }
            let n = es.len();
            let mut i: usize = 0;
            while i < n
                invariant
                    0 <= i <= n,
                    n == es@.len(),
                    *v == TagValue::Compound(*es),
                    dees == deep_entries(es@),
                    dees.len() == es@.len(),
                    forall|k: int|
                        0 <= k < es@.len() ==> dees[k] == ((#[trigger] es@[k]).0@,
                        es@[k].1.deep_view()),
                    out.deep_view() + spec_materialize_entries(dees.skip(i as int), path@)
                        =~= base_rows + seq![node] + spec_materialize_entries(dees, path@),
                decreases n - i,
            {
                let e = &es[i];
                proof {
                    let ghost ves = v->Compound_0;
                    assert(decreases_to!(*v => v->Compound_0));
                    assert(decreases_to!(ves => ves@));
                    assert(decreases_to!(ves@ => ves@[i as int]));
                    assert(decreases_to!(ves@[i as int] => ves@[i as int].1));
                    assert(decreases_to!(*v => es@[i as int].1));
                }
                let child_path = join_path(path, &e.0);
                materialize_value(&e.1, &child_path, &e.0, out);
                proof {
                    assert(dees.skip(i as int)[0] == dees[i as int]);
                    assert(dees.skip(i as int).drop_first() =~= dees.skip(i as int + 1));
                    assert(spec_materialize_entries(dees.skip(i as int), path@)
                        == spec_materialize(dees[i as int].1, path@ + "/"@ + dees[i as int].0,
                        dees[i as int].0) + spec_materialize_entries(
                        dees.skip(i as int + 1),
                        path@,
                    ));
                    assert(out.deep_view() + spec_materialize_entries(
                        dees.skip(i as int + 1),
                        path@,
                    ) =~= base_rows + seq![node] + spec_materialize_entries(dees, path@));
                }
                i = i + 1;
            }
            proof {
                assert(dees.skip(n as int) =~= Seq::empty());
                assert(out.deep_view() =~= base_rows + (seq![node] + spec_materialize_entries(
                    dees,
                    path@,
                )));
            }
        },
        TagValue::List(kk, es) => {
            proof {
                crate::value::lemma_deep_list(es@);
            }
            let ghost dles = deep_list(es@);
            proof {
                assert(dles.skip(0) =~= dles);
            }
            let n = es.len();
            let mut i: usize = 0;
            while i < n
                invariant
                    0 <= i <= n,
                    n == es@.len(),
                    *v == TagValue::List(*kk, *es),
                    dles == deep_list(es@),
                    dles.len() == es@.len(),
                    forall|k: int| 0 <= k < es@.len() ==> dles[k] == (#[trigger] es@[k]).deep_view(),
                    out.deep_view() + spec_materialize_elems(dles.skip(i as int), path@, i as nat)
                        =~= base_rows + seq![node] + spec_materialize_elems(dles, path@, 0),
                decreases n - i,
            {
                let e = &es[i];
                proof {
                    let ghost ves = v->List_1;
                    assert(decreases_to!(*v => v->List_1));
                    assert(decreases_to!(ves => ves@));
                    assert(decreases_to!(ves@ => ves@[i as int]));
                    assert(decreases_to!(*v => es@[i as int]));
                }
                let idx = dec_u64(i as u64);
                let child_path = join_path(path, &idx);
                materialize_value(e, &child_path, &idx, out);
                proof {
                    assert(dles.skip(i as int)[0] == dles[i as int]);
                    assert(dles.skip(i as int).drop_first() =~= dles.skip(i as int + 1));
                    assert(spec_materialize_elems(dles.skip(i as int), path@, i as nat)
                        == spec_materialize(dles[i as int], path@ + "/"@ + dec_str(i as nat),
                        dec_str(i as nat)) + spec_materialize_elems(
                        dles.skip(i as int + 1),
                        path@,
                        i as nat + 1,
                    ));
                    assert(out.deep_view() + spec_materialize_elems(
                        dles.skip(i as int + 1),
                        path@,
                        (i + 1) as nat,
                    ) =~= base_rows + seq![node] + spec_materialize_elems(dles, path@, 0));
                }
                i = i + 1;
            }
            proof {
                assert(dles.skip(n as int) =~= Seq::empty());
                assert(out.deep_view() =~= base_rows + (seq![node] + spec_materialize_elems(
                    dles,
                    path@,
                    0,
                )));
            }
        },
        _ => {
            proof {
                assert(out.deep_view() =~= base_rows + spec_materialize(
                    v.deep_view(),
                    path@,
                    seg@,
                ));
            }
        },
    }
}

/// Produces the ordered rows of the whole document: a deterministic, pure
/// projection whose result is fixed by the document alone.
pub fn materialize_tree(doc: &Document) -> (r: Vec<TreeNodeRecord>)
    ensures
        r.deep_view() == spec_materialize_doc(doc.deep_view()),
{
    let mut out: Vec<TreeNodeRecord> = Vec::new();
    materialize_value(&doc.root, &doc.title, &doc.title, &mut out);
    proof {
        assert(out.deep_view() =~= spec_materialize_doc(doc.deep_view()));
    }
    out
}

/// Materialization is deterministic: any two row sequences that satisfy
/// `materialize_tree`'s contract for one document are the same.
pub proof fn lemma_materialize_deterministic(d: DocV, r1: Seq<NodeV>, r2: Seq<NodeV>)
    requires
        r1 == spec_materialize_doc(d),
        r2 == spec_materialize_doc(d),
    ensures
        r1 == r2,
{
}


/// The views of a sequence of path segments.
pub open spec fn deep_segs(s: Seq<String>) -> Seq<Seq<char>> {
    Seq::new(s.len(), |i: int| s[i]@)
}

/// Resolves `segs` against `v`: no segments name `v` itself; otherwise the
/// first segment picks a compound entry by name or a list element by its
/// decimal index, and the rest resolve against that child. Kinds without
/// children resolve nothing.
pub open spec fn spec_lookup(v: TagV, segs: Seq<Seq<char>>) -> Option<TagV>
    decreases segs.len(), 1int, 0int,
{
    if segs.len() == 0 {
        Some(v)
    } else {
        match v {
            TagV::Compound(es) => spec_lookup_entries(es, segs),
            TagV::List(_, es) => spec_lookup_elems(es, 0, segs),
            _ => None,
        }
    }
}

/// The first entry whose name is the leading segment, searched in order.
pub open spec fn spec_lookup_entries(es: Seq<(Seq<char>, TagV)>, segs: Seq<Seq<char>>) -> Option<
    TagV,
>
    decreases segs.len(), 0int, es.len(),
{
    if segs.len() == 0 || es.len() == 0 {
        None
    } else if es[0].0 == segs[0] {
        spec_lookup(es[0].1, segs.drop_first())
    } else {
        spec_lookup_entries(es.drop_first(), segs)
    }
}

/// The element whose decimal index writing is the leading segment.
pub open spec fn spec_lookup_elems(es: Seq<TagV>, idx: nat, segs: Seq<Seq<char>>) -> Option<TagV>
    decreases segs.len(), 0int, es.len(),
{
    if segs.len() == 0 || es.len() == 0 {
        None
    } else if dec_str(idx) == segs[0] {
        spec_lookup(es[0], segs.drop_first())
    } else {
        spec_lookup_elems(es.drop_first(), idx + 1, segs)
    }
}

fn lookup_value<'a>(v: &'a TagValue, path: &Vec<String>, at: usize) -> (r: Option<&'a TagValue>)
    requires
        at <= path@.len(),
    ensures
        (match r {
            Some(w) => spec_lookup(v.deep_view(), deep_segs(path@).skip(at as int)) == Some(
                w.deep_view(),
            ),
            None => spec_lookup(v.deep_view(), deep_segs(path@).skip(at as int)) is None,
        }),
    decreases path@.len() - at,
{
    let ghost segs = deep_segs(path@).skip(at as int);
    if at == path.len() {
        proof {
            assert(segs.len() == 0);
        }
        return Some(v);
    }
    proof {
        assert(segs.len() > 0);
        assert(segs[0] == path@[at as int]@);
    }
    match v {
        TagValue::Compound(es) => {
            proof {
                lemma_deep_entries(es@);
            }
            let ghost dees = deep_entries(es@);
            proof {
                assert(dees.skip(0) =~= dees);
            }
            let n = es.len();
            let mut i: usize = 0;
            while i < n
                invariant
                    0 <= i <= n,
                    at < path@.len(),
                    n == es@.len(),
                    segs == deep_segs(path@).skip(at as int),
                    segs.len() > 0,
                    segs[0] == path@[at as int]@,
                    path@.len() <= usize::MAX,
                    *v == TagValue::Compound(*es),
                    dees == deep_entries(es@),
                    dees.len() == es@.len(),
                    forall|k: int|
                        0 <= k < es@.len() ==> dees[k] == ((#[trigger] es@[k]).0@,
                        es@[k].1.deep_view()),
                    spec_lookup_entries(dees, segs) == spec_lookup_entries(
                        dees.skip(i as int),
                        segs,
                    ),
                decreases n - i,
            {
                let e = &es[i];
                if e.0 == path[at] {
                    proof {
                        assert(dees.skip(i as int)[0] == dees[i as int]);
                        assert(dees.skip(i as int).drop_first() =~= dees.skip(i as int + 1));
                        assert(deep_segs(path@).skip(at as int).drop_first() =~= deep_segs(
                            path@,
                        ).skip(at as int + 1));
                    }
                    return lookup_value(&e.1, path, at + 1);
                }
                proof {
                    assert(dees.skip(i as int)[0] == dees[i as int]);
                    assert(dees.skip(i as int).drop_first() =~= dees.skip(i as int + 1));
                }
                i = i + 1;
            }
            proof {
                assert(dees.skip(n as int) =~= Seq::<(Seq<char>, TagV)>::empty());
            }
            None
        },
        TagValue::List(kk, es) => {
            proof {
                crate::value::lemma_deep_list(es@);
            }
            let ghost dles = deep_list(es@);
            proof {
                assert(dles.skip(0) =~= dles);
            }
            let n = es.len();
            let mut i: usize = 0;
            while i < n
                invariant
                    0 <= i <= n,
                    at < path@.len(),
                    n == es@.len(),
                    segs == deep_segs(path@).skip(at as int),
                    segs.len() > 0,
                    segs[0] == path@[at as int]@,
                    path@.len() <= usize::MAX,
                    *v == TagValue::List(*kk, *es),
                    dles == deep_list(es@),
                    dles.len() == es@.len(),
                    forall|k: int| 0 <= k < es@.len() ==> dles[k] == (#[trigger] es@[k]).deep_view(),
                    spec_lookup_elems(dles, 0, segs) == spec_lookup_elems(
                        dles.skip(i as int),
                        i as nat,
                        segs,
                    ),
                decreases n - i,
            {
                let e = &es[i];
                let seg_i = dec_u64(i as u64);
                if path[at] == seg_i {
                    proof {
                        assert(dles.skip(i as int)[0] == dles[i as int]);
                        assert(seg_i@ == dec_str(i as nat));
                        assert(dec_str(i as nat) == segs[0]);
                        assert(spec_lookup_elems(dles.skip(i as int), i as nat, segs)
                            == spec_lookup(dles[i as int], segs.drop_first()));
                        assert(deep_segs(path@).skip(at as int).drop_first() =~= deep_segs(
                            path@,
                        ).skip(at as int + 1));
                    }
                    return lookup_value(e, path, at + 1);
                }
                proof {
                    assert(dles.skip(i as int)[0] == dles[i as int]);
                    assert(dles.skip(i as int).drop_first() =~= dles.skip(i as int + 1));
                }
                i = i + 1;
            }
            proof {
                assert(dles.skip(n as int) =~= Seq::<TagV>::empty());
            }
            None
        },
        _ => None,
    }
}

/// Resolves a path, given as its segments, to the value it addresses under
/// the document root: a name picks a compound entry, a decimal index picks a
/// list element, in the order `materialize_tree` walks them.
pub fn lookup<'a>(doc: &'a Document, path: &Vec<String>) -> (r: Option<&'a TagValue>)
    ensures
        (match r {
            Some(w) => spec_lookup(doc.root.deep_view(), deep_segs(path@)) == Some(w.deep_view()),
            None => spec_lookup(doc.root.deep_view(), deep_segs(path@)) is None,
        }),
{
    proof {
        assert(deep_segs(path@).skip(0) =~= deep_segs(path@));
    }
    lookup_value(&doc.root, path, 0)
}

} // verus!
