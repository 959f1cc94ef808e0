//! Text rendering: booleans and numbers as their literal text, strings
//! double-quoted with no escaping re-applied, arrays and objects with
//! four-space indentation per nesting level, one element per line, no
//! trailing comma, and `null` for the null value. Object entries are
//! rendered in insertion order.

use vstd::prelude::*;
use crate::json::{view_of, view_of_entries, view_of_seq, JSONValue, SpecValue};
use crate::strutil::push_char;

verus! {

/// The rendered text of a value at indentation `ind`.
pub open spec fn render_of(v: SpecValue, ind: Seq<char>) -> Seq<char>
    decreases v, 1int,
{
    match v {
        SpecValue::Bool(b) => if b {
            "true"@
        } else {
            "false"@
        },
        SpecValue::Num(s) => s,
        SpecValue::Str(s) => seq!['"'] + s + seq!['"'],
        SpecValue::Arr(a) => "[\n"@ + render_elems(a, 0, ind + "    "@) + ind + seq![']'],
        SpecValue::Obj(es) => "{\n"@ + render_members(es, 0, ind + "    "@) + ind + seq!['}'],
        SpecValue::Null => "null"@,
    }
}

/// The rendered lines of the array elements from position `i` on: each on
/// its own line at indentation `ind`, a comma after every element but the
/// last.
pub open spec fn render_elems(a: Seq<SpecValue>, i: int, ind: Seq<char>) -> Seq<char>
    decreases a, 2int, a.len() - i when 0 <= i
{
    if i >= a.len() {
        Seq::empty()
    } else {
        ind + render_of(a[i], ind) + (if i < a.len() - 1 {
            seq![',']
        } else {
            Seq::empty()
        }) + seq!['\n'] + render_elems(a, i + 1, ind)
    }
}

/// The rendered lines of the object entries from position `i` on: the
/// quoted key, a colon and a space, and the value.
pub open spec fn render_members(
    es: Seq<(Seq<char>, SpecValue)>,
    i: int,
    ind: Seq<char>,
) -> Seq<char>
    decreases es, 2int, es.len() - i when 0 <= i
{
    if i >= es.len() {
        Seq::empty()
    } else {
        ind + seq!['"'] + es[i].0 + "\": "@ + render_of(es[i].1, ind) + (if i < es.len() - 1 {
            seq![',']
        } else {
            Seq::empty()
        }) + seq!['\n'] + render_members(es, i + 1, ind)
    }
}

impl JSONValue {
    /// Render the value as indented text.
    pub fn render(&self) -> (r: String)
        ensures
            r@ == render_of(self@, Seq::empty()),
    {
        let mut out = String::new();
        let ind = String::new();
        self.render_rec(&mut out, &ind);
        proof {
            assert(Seq::<char>::empty() + render_of(self@, ind@) =~= render_of(self@, ind@));
        }
        out
    }

    /// Append the rendered text of the value at indentation `ind`.
    fn render_rec(&self, out: &mut String, ind: &String)
        ensures
            final(out)@ == old(out)@ + render_of(view_of(*self), ind@),
        decreases *self,
    {
        let ghost base = out@;
        match self {
            JSONValue::Bool(b) => {
                if *b {
                    out.append("true");
                } else {
                    out.append("false");
                }
            },
            JSONValue::Number(s) => {
                out.append(s.as_str());
            },
            JSONValue::String(s) => {
                push_char(out, '"');
                out.append(s.as_str());
                push_char(out, '"');
                proof {
                    assert(out@ =~= base + (seq!['"'] + s@ + seq!['"']));
                }
            },
            JSONValue::Array(arr) => {
                let ghost a = view_of_seq(arr@);
                proof {
                    crate::json::lemma_view_of_seq(arr@);
                }
                out.append("[\n");
                let mut child = String::from_str(ind.as_str());
                child.append("    ");
                let m = arr.len();
                let mut i: usize = 0;
                while i < m
                    invariant
                        m == arr.len(),
                        i <= m,
                        a == view_of_seq(arr@),
                        a.len() == m,
                        forall|q: int| 0 <= q < m ==> a[q] == view_of(#[trigger] arr@[q]),
                        *self == JSONValue::Array(*arr),
                        child@ == ind@ + "    "@,
                        out@ + render_elems(a, i as int, child@) == base + "[\n"@ + render_elems(
                            a,
                            0,
                            child@,
                        ),
                    decreases m - i,
                {
                    let ghost before = out@;
                    out.append(child.as_str());
                    proof {
                        assert((*self)->Array_0 == *arr);
                        assert(decreases_to!(*self => (*self)->Array_0));
                        assert(decreases_to!(*arr => arr@[i as int]));
                    }
                    arr[i].render_rec(out, &child);
                    if i + 1 < m {
                        push_char(out, ',');
                    }
                    push_char(out, '\n');
                    proof {
                        let piece = child@ + render_of(a[i as int], child@) + (if (i as int) < a.len()
                            - 1 {
                            seq![',']
                        } else {
                            Seq::<char>::empty()
                        }) + seq!['\n'];
                        assert(out@ =~= before + piece);
                        assert(render_elems(a, i as int, child@) == piece + render_elems(
                            a,
                            i + 1,
                            child@,
                        ));
                        assert(out@ + render_elems(a, i + 1, child@) =~= before + render_elems(
                            a,
                            i as int,
                            child@,
                        ));
                    }
                    i = i + 1;
                }
                proof {
                    assert(render_elems(a, m as int, child@) == Seq::<char>::empty());
                    assert(out@ + render_elems(a, m as int, child@) =~= out@);
                }
                let ghost done = out@;
                out.append(ind.as_str());
                push_char(out, ']');
                proof {
                    assert(done == base + "[\n"@ + render_elems(a, 0, child@));
                    assert(out@ =~= base + ("[\n"@ + render_elems(a, 0, child@) + ind@
                        + seq![']']));
                }
            },
            JSONValue::Object(o) => {
                let ghost es = view_of_entries(o.spec_entries());
                proof {
                    crate::json::lemma_view_of_entries(o.spec_entries());
                }
                out.append("{\n");
                let mut child = String::from_str(ind.as_str());
                child.append("    ");
                let m = o.len();
                let mut i: usize = 0;
                while i < m
                    invariant
                        m == o.spec_entries().len(),
                        i <= m,
                        es == view_of_entries(o.spec_entries()),
                        es.len() == m,
                        forall|q: int|
                            0 <= q < m ==> es[q] == ((#[trigger] o.spec_entries()[q].0@), view_of(
                                o.spec_entries()[q].1,
                            )),
                        *self == JSONValue::Object(*o),
                        child@ == ind@ + "    "@,
                        out@ + render_members(es, i as int, child@) == base + "{\n"@
                            + render_members(es, 0, child@),
                    decreases m - i,
                {
                    let ghost before = out@;
                    proof {
                        assert((*self)->Object_0 == *o);
                        assert(decreases_to!(*self => (*self)->Object_0));
                        crate::json::lemma_obj_entry_decreases(o, i as int);
                    }
                    let entry = o.entry_at(i);
                    out.append(child.as_str());
                    push_char(out, '"');
                    out.append(entry.0.as_str());
                    out.append("\": ");
                    entry.1.render_rec(out, &child);
                    if i + 1 < m {
                        push_char(out, ',');
                    }
                    push_char(out, '\n');
                    proof {
                        let piece = child@ + seq!['"'] + es[i as int].0 + "\": "@ + render_of(
                            es[i as int].1,
                            child@,
                        ) + (if (i as int) < es.len() - 1 {
                            seq![',']
                        } else {
                            Seq::<char>::empty()
                        }) + seq!['\n'];
                        assert(out@ =~= before + piece);
                        assert(render_members(es, i as int, child@) == piece + render_members(
                            es,
                            i + 1,
                            child@,
                        ));
                        assert(out@ + render_members(es, i + 1, child@) =~= before
                            + render_members(es, i as int, child@));
                    }
                    i = i + 1;
                }
                proof {
                    assert(render_members(es, m as int, child@) == Seq::<char>::empty());
                    assert(out@ + render_members(es, m as int, child@) =~= out@);
                }
                let ghost done = out@;
                out.append(ind.as_str());
                push_char(out, '}');
                proof {
                    assert(done == base + "{\n"@ + render_members(es, 0, child@));
                    assert(out@ =~= base + ("{\n"@ + render_members(es, 0, child@) + ind@
                        + seq!['}']));
                }
            },
            JSONValue::Null => {
                out.append("null");
            },
        }
    }
}

} // verus!
