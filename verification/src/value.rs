//! The tagged value type and its derived operations.

use vstd::prelude::*;
use crate::b64::b64_decode_of;
use crate::binary::{bin_text, Binary};
use crate::number::{
    num_add, num_chars, num_cmp, num_text, spec_add, spec_num_cmp, Num, Order,
};
use crate::text::{chars_vec, string_from_chars};

verus! {

broadcast use vstd::std_specs::vec::group_vec_axioms, vstd::seq::group_seq_axioms;

/// The mathematical shape of a value: what contracts and laws speak of.
pub enum Val {
    Null,
    Str(Seq<char>),
    Number(Num),
    Bool(bool),
    List(Seq<Val>),
    Dict(Seq<(Seq<char>, Val)>),
    Tup(Seq<Val>),
    Bin(Seq<u8>),
}

/// The tagged value. A `Dict` keeps its entries in insertion order with
/// unique keys; a `Tuple` has exactly two children.
pub enum DataValue {
    Null,
    String(String),
    Number(Num),
    Boolean(bool),
    List(Vec<DataValue>),
    Dict(Vec<(String, DataValue)>),
    Tuple((Box<DataValue>, Box<DataValue>)),
    Binary(Binary),
}

/// The shape a value denotes.
pub open spec fn val_of(v: DataValue) -> Val
    decreases v,
{
    match v {
        DataValue::Null => Val::Null,
        DataValue::String(s) => Val::Str(s@),
        DataValue::Number(n) => Val::Number(n),
        DataValue::Boolean(b) => Val::Bool(b),
        DataValue::List(l) => Val::List(
            Seq::new(
                l@.len(),
                |i: int|
                    if 0 <= i < l@.len() {
                        val_of(l[i])
                    } else {
                        Val::Null
                    },
            ),
        ),
        DataValue::Dict(d) => Val::Dict(
            Seq::new(
                d@.len(),
                |i: int|
                    if 0 <= i < d@.len() {
                        (d[i].0@, val_of(d[i].1))
                    } else {
                        (Seq::empty(), Val::Null)
                    },
            ),
        ),
        DataValue::Tuple(p) => Val::Tup(seq![val_of(*p.0), val_of(*p.1)]),
        DataValue::Binary(b) => Val::Bin(b@),
    }
}

impl View for DataValue {
    type V = Val;

    open spec fn view(&self) -> Val {
        val_of(*self)
    }
}

/// The canonical text form: recursive, with no whitespace.
pub open spec fn print_val(m: Val) -> Seq<char>
    decreases m,
{
    match m {
        Val::Null => seq!['n', 'o', 'n', 'e'],
        Val::Str(t) => seq!['"'] + t + seq!['"'],
        Val::Number(n) => num_text(n),
        Val::Bool(b) => if b {
            seq!['t', 'r', 'u', 'e']
        } else {
            seq!['f', 'a', 'l', 's', 'e']
        },
        Val::List(l) => seq!['['] + print_items(l) + seq![']'],
        Val::Dict(d) => seq!['{'] + print_entries(d) + seq!['}'],
        Val::Tup(p) => if p.len() == 2 {
            seq!['('] + print_val(p[0]) + seq![','] + print_val(p[1]) + seq![')']
        } else {
            Seq::empty()
        },
        Val::Bin(bs) => bin_text(bs),
    }
}

/// List elements joined by commas.
pub open spec fn print_items(l: Seq<Val>) -> Seq<char>
    decreases l,
{
    if l.len() == 0 {
        Seq::empty()
    } else if l.len() == 1 {
        print_val(l[0])
    } else {
        print_items(l.drop_last()) + seq![','] + print_val(l.last())
    }
}

/// One dict entry, `"key":value`.
pub open spec fn entry_text(e: (Seq<char>, Val)) -> Seq<char>
    decreases e,
{
    seq!['"'] + e.0 + seq!['"', ':'] + print_val(e.1)
}

/// Dict entries joined by commas.
pub open spec fn print_entries(d: Seq<(Seq<char>, Val)>) -> Seq<char>
    decreases d,
{
    if d.len() == 0 {
        Seq::empty()
    } else if d.len() == 1 {
        entry_text(d[0])
    } else {
        print_entries(d.drop_last()) + seq![','] + entry_text(d.last())
    }
}

proof fn lemma_print_items_take(l: Seq<Val>, i: int)
    requires
        0 <= i < l.len(),
    ensures
        print_items(l.take(i + 1)) == if i == 0 {
            print_val(l[0])
        } else {
            print_items(l.take(i)) + seq![','] + print_val(l[i])
        },
{
    let t = l.take(i + 1);
    assert(t.len() == i + 1);
    if i == 0 {
        assert(t[0] == l[0]);
    } else {
        assert(t.drop_last() =~= l.take(i));
        assert(t.last() == l[i]);
    }
}

proof fn lemma_print_entries_take(d: Seq<(Seq<char>, Val)>, i: int)
    requires
        0 <= i < d.len(),
    ensures
        print_entries(d.take(i + 1)) == if i == 0 {
            entry_text(d[0])
        } else {
            print_entries(d.take(i)) + seq![','] + entry_text(d[i])
        },
{
    let t = d.take(i + 1);
    assert(t.len() == i + 1);
    if i == 0 {
        assert(t[0] == d[0]);
    } else {
        assert(t.drop_last() =~= d.take(i));
        assert(t.last() == d[i]);
    }
}

/// Appends the canonical text of `v` to `out`.
fn push_val(out: &mut Vec<char>, v: &DataValue)
    ensures
        final(out)@ == old(out)@ + print_val(v@),
    decreases *v,
{
    let ghost base = out@;
    match v {
        DataValue::Null => {
            out.push('n');
            out.push('o');
            out.push('n');
            out.push('e');
            proof {
                assert(out@ =~= base + print_val(v@));
            }
        },
        DataValue::String(s) => {
            out.push('"');
            let cs = chars_vec(s.as_str());
            let mut i: usize = 0;
            while i < cs.len()
                invariant
                    i <= cs.len(),
                    out@ == base + seq!['"'] + cs@.take(i as int),
                decreases cs.len() - i,
            {
                out.push(cs[i]);
                i = i + 1;
                proof {
                    assert(out@ =~= base + seq!['"'] + cs@.take(i as int));
                }
            }
            out.push('"');
            proof {
                assert(cs@.take(cs@.len() as int) =~= cs@);
                assert(out@ =~= base + print_val(v@));
            }
        },
        DataValue::Number(n) => {
            let cs = num_chars(n);
            let mut i: usize = 0;
            while i < cs.len()
                invariant
                    i <= cs.len(),
                    out@ == base + cs@.take(i as int),
                decreases cs.len() - i,
            {
                out.push(cs[i]);
                i = i + 1;
                proof {
                    assert(out@ =~= base + cs@.take(i as int));
                }
            }
            proof {
                assert(cs@.take(cs@.len() as int) =~= cs@);
            }
        },
        DataValue::Boolean(b) => {
            if *b {
                out.push('t');
                out.push('r');
                out.push('u');
                out.push('e');
            } else {
                out.push('f');
                out.push('a');
                out.push('l');
                out.push('s');
                out.push('e');
            }
            proof {
                assert(out@ =~= base + print_val(v@));
            }
        },
        DataValue::List(l) => {
            out.push('[');
            let ghost model = (match v@ {
                Val::List(s) => s,
                _ => Seq::empty(),
            });
            proof {
                assert(*v == DataValue::List(*l));
                assert(model.len() == l@.len());
            }
            let mut i: usize = 0;
            while i < l.len()
                invariant
                    i <= l.len(),
                    *v == DataValue::List(*l),
                    model == (match v@ {
                        Val::List(s) => s,
                        _ => Seq::empty(),
                    }),
                    model.len() == l@.len(),
                    out@ == base + seq!['['] + print_items(model.take(i as int)),
                decreases l.len() - i,
            {
                if i > 0 {
                    out.push(',');
                }
                proof {
                    assert(decreases_to!(*v => *l));
                    assert(decreases_to!(*l => l[i as int]));
                }
                push_val(out, &l[i]);
                i = i + 1;
                proof {
                    lemma_print_items_take(model, i - 1);
                    assert(model[i - 1] == val_of(l[i - 1]));
                    assert(out@ =~= base + seq!['['] + print_items(model.take(i as int)));
                }
            }
            out.push(']');
            proof {
                assert(model.take(model.len() as int) =~= model);
                assert(out@ =~= base + print_val(v@));
            }
        },
        DataValue::Dict(d) => {
            out.push('{');
            let ghost model = (match v@ {
                Val::Dict(s) => s,
                _ => Seq::empty(),
            });
            proof {
                assert(*v == DataValue::Dict(*d));
                assert(model.len() == d@.len());
            }
            let mut i: usize = 0;
            while i < d.len()
                invariant
                    i <= d.len(),
                    *v == DataValue::Dict(*d),
                    model == (match v@ {
                        Val::Dict(s) => s,
                        _ => Seq::empty(),
                    }),
                    model.len() == d@.len(),
                    out@ == base + seq!['{'] + print_entries(model.take(i as int)),
                decreases d.len() - i,
            {
                if i > 0 {
                    out.push(',');
                }
                out.push('"');
                let ks = chars_vec(d[i].0.as_str());
                let ghost mid = out@;
                let mut j: usize = 0;
                while j < ks.len()
                    invariant
                        j <= ks.len(),
                        out@ == mid + ks@.take(j as int),
                    decreases ks.len() - j,
                {
                    out.push(ks[j]);
                    j = j + 1;
                    proof {
                        assert(out@ =~= mid + ks@.take(j as int));
                    }
                }
                out.push('"');
                out.push(':');
                proof {
                    assert(decreases_to!(*v => *d));
                    assert(decreases_to!(*d => d[i as int]));
                    assert(decreases_to!(d[i as int] => d[i as int].1));
                }
                push_val(out, &d[i].1);
                i = i + 1;
                proof {
                    lemma_print_entries_take(model, i - 1);
                    assert(model[i - 1] == (d[i - 1].0@, val_of(d[i - 1].1)));
                    assert(ks@.take(ks@.len() as int) =~= ks@);
                    assert(out@ =~= base + seq!['{'] + print_entries(model.take(i as int)));
                }
            }
            out.push('}');
            proof {
                assert(model.take(model.len() as int) =~= model);
                assert(out@ =~= base + print_val(v@));
            }
        },
        DataValue::Tuple(p) => {
            out.push('(');
            push_val(out, &p.0);
            out.push(',');
            push_val(out, &p.1);
            out.push(')');
            proof {
                assert(out@ =~= base + print_val(v@));
            }
        },
        DataValue::Binary(b) => {
            let t = b.to_string();
            let cs = chars_vec(t.as_str());
            let mut i: usize = 0;
            while i < cs.len()
                invariant
                    i <= cs.len(),
                    out@ == base + cs@.take(i as int),
                decreases cs.len() - i,
            {
                out.push(cs[i]);
                i = i + 1;
                proof {
                    assert(out@ =~= base + cs@.take(i as int));
                }
            }
            proof {
                assert(cs@.take(cs@.len() as int) =~= cs@);
            }
        },
    }
}

impl DataValue {
    /// The canonical text form of this value.
    pub fn to_string(&self) -> (r: String)
        ensures
            r@ == print_val(self@),
    {
        let mut out: Vec<char> = Vec::new();
        push_val(&mut out, self);
        proof {
            assert(Seq::<char>::empty() + print_val(self@) =~= print_val(self@));
        }
        string_from_chars(&out)
    }
}

} // verus!

verus! {

/// The recursive byte-ish size measure: strings count their UTF-8 bytes,
/// numbers count 8, booleans 1, composites sum their children (dict keys
/// are not counted), blobs count their bytes.
pub open spec fn spec_size(m: Val) -> nat
    decreases m,
{
    match m {
        Val::Null => 0,
        Val::Str(t) => vstd::utf8::encode_utf8(t).len(),
        Val::Number(_) => 8,
        Val::Bool(_) => 1,
        Val::List(l) => size_sum(l),
        Val::Dict(d) => size_entries(d),
        Val::Tup(p) => size_sum(p),
        Val::Bin(bs) => bs.len(),
    }
}

/// The sum of the sizes of a sequence of values.
pub open spec fn size_sum(l: Seq<Val>) -> nat
    decreases l,
{
    if l.len() == 0 {
        0
    } else {
        size_sum(l.drop_last()) + spec_size(l.last())
    }
}

/// The sum of the sizes of a dict's values (keys excluded).
pub open spec fn size_entries(d: Seq<(Seq<char>, Val)>) -> nat
    decreases d,
{
    if d.len() == 0 {
        0
    } else {
        size_entries(d.drop_last()) + spec_size(d.last().1)
    }
}

proof fn lemma_size_sum_take(l: Seq<Val>, i: int)
    requires
        0 <= i < l.len(),
    ensures
        size_sum(l.take(i + 1)) == size_sum(l.take(i)) + spec_size(l[i]),
{
    let t = l.take(i + 1);
    assert(t.drop_last() =~= l.take(i));
    assert(t.last() == l[i]);
}

proof fn lemma_size_sum_prefix(l: Seq<Val>, i: int)
    requires
        0 <= i <= l.len(),
    ensures
        size_sum(l.take(i)) <= size_sum(l),
    decreases l.len() - i,
{
    if i == l.len() {
        assert(l.take(i) =~= l);
    } else {
        lemma_size_sum_take(l, i);
        lemma_size_sum_prefix(l, i + 1);
    }
}

proof fn lemma_size_entries_take(d: Seq<(Seq<char>, Val)>, i: int)
    requires
        0 <= i < d.len(),
    ensures
        size_entries(d.take(i + 1)) == size_entries(d.take(i)) + spec_size(d[i].1),
{
    let t = d.take(i + 1);
    assert(t.drop_last() =~= d.take(i));
    assert(t.last() == d[i]);
}

proof fn lemma_size_entries_prefix(d: Seq<(Seq<char>, Val)>, i: int)
    requires
        0 <= i <= d.len(),
    ensures
        size_entries(d.take(i)) <= size_entries(d),
    decreases d.len() - i,
{
    if i == d.len() {
        assert(d.take(i) =~= d);
    } else {
        lemma_size_entries_take(d, i);
        lemma_size_entries_prefix(d, i + 1);
    }
}

/// A composite child's contribution to a weight sum: its own weight when it
/// has one, and zero otherwise.
pub open spec fn wpart(w: Option<Num>) -> Num {
    match w {
        Some(n) => n,
        None => Num { neg: false, mant: 0, scale: 0 },
    }
}

/// The weight of a value: a number's own value; for a composite, the exact
/// sum of its children's contributions, folded left; no weight at all for
/// the other leaves (they are transparent inside composites).
pub open spec fn spec_weight(m: Val) -> Option<Num>
    decreases m,
{
    match m {
        Val::Number(n) => Some(n),
        Val::List(l) => wsum(l),
        Val::Dict(d) => wsum_entries(d),
        Val::Tup(p) => wsum(p),
        _ => None,
    }
}

/// Left fold of `spec_add` over the contributions of a sequence.
pub open spec fn wsum(l: Seq<Val>) -> Option<Num>
    decreases l,
{
    if l.len() == 0 {
        Some(Num { neg: false, mant: 0, scale: 0 })
    } else {
        match wsum(l.drop_last()) {
            Some(acc) => spec_add(acc, wpart(spec_weight(l.last()))),
            None => None,
        }
    }
}

/// Left fold of `spec_add` over a dict's values.
pub open spec fn wsum_entries(d: Seq<(Seq<char>, Val)>) -> Option<Num>
    decreases d,
{
    if d.len() == 0 {
        Some(Num { neg: false, mant: 0, scale: 0 })
    } else {
        match wsum_entries(d.drop_last()) {
            Some(acc) => spec_add(acc, wpart(spec_weight(d.last().1))),
            None => None,
        }
    }
}

proof fn lemma_wsum_take(l: Seq<Val>, i: int)
    requires
        0 <= i < l.len(),
    ensures
        wsum(l.take(i + 1)) == match wsum(l.take(i)) {
            Some(acc) => spec_add(acc, wpart(spec_weight(l[i]))),
            None => None::<Num>,
        },
{
    let t = l.take(i + 1);
    assert(t.drop_last() =~= l.take(i));
    assert(t.last() == l[i]);
}

proof fn lemma_wsum_entries_take(d: Seq<(Seq<char>, Val)>, i: int)
    requires
        0 <= i < d.len(),
    ensures
        wsum_entries(d.take(i + 1)) == match wsum_entries(d.take(i)) {
            Some(acc) => spec_add(acc, wpart(spec_weight(d[i].1))),
            None => None::<Num>,
        },
{
    let t = d.take(i + 1);
    assert(t.drop_last() =~= d.take(i));
    assert(t.last() == d[i]);
}

/// How two values compare: by weight, with weightless values above every
/// weighted one, and ties equal.
pub open spec fn spec_wcmp(a: Option<Num>, b: Option<Num>) -> Order {
    match (a, b) {
        (Option::None, Option::None) => Order::Equal,
        (Option::None, Option::Some(_)) => Order::Greater,
        (Option::Some(_), Option::None) => Order::Less,
        (Option::Some(x), Option::Some(y)) => spec_num_cmp(x, y),
    }
}

/// The name of a value's kind.
pub open spec fn kind_name(m: Val) -> Seq<char> {
    match m {
        Val::Null => seq!['N', 'o', 'n', 'e'],
        Val::Str(_) => seq!['S', 't', 'r', 'i', 'n', 'g'],
        Val::Number(_) => seq!['N', 'u', 'm', 'b', 'e', 'r'],
        Val::Bool(_) => seq!['B', 'o', 'o', 'l', 'e', 'a', 'n'],
        Val::List(_) => seq!['L', 'i', 's', 't'],
        Val::Dict(_) => seq!['D', 'i', 'c', 't'],
        Val::Tup(_) => seq!['T', 'u', 'p', 'l', 'e'],
        Val::Bin(_) => seq!['B', 'i', 'n', 'a', 'r', 'y'],
    }
}

impl DataValue {
    /// The recursive size measure.
    pub fn size(&self) -> (r: usize)
        requires
            spec_size(self@) <= usize::MAX,
        ensures
            r == spec_size(self@),
        decreases *self,
    {
        match self {
            DataValue::Null => 0,
            DataValue::String(s) => s.as_str().len(),
            DataValue::Number(_) => 8,
            DataValue::Boolean(_) => 1,
            DataValue::List(l) => {
                let ghost model = (match self@ {
                    Val::List(s) => s,
                    _ => Seq::empty(),
                });
                proof {
                    assert(*self == DataValue::List(*l));
                    assert(model.len() == l@.len());
                }
                let mut acc: usize = 0;
                let mut i: usize = 0;
                while i < l.len()
                    invariant
                        i <= l.len(),
                        *self == DataValue::List(*l),
                        spec_size(self@) <= usize::MAX,
                        model == (match self@ {
                            Val::List(s) => s,
                            _ => Seq::empty(),
                        }),
                        model.len() == l@.len(),
                        acc == size_sum(model.take(i as int)),
                    decreases l.len() - i,
                {
                    proof {
                        assert(decreases_to!(*self => *l));
                        assert(decreases_to!(*l => l[i as int]));
                        assert(model[i as int] == val_of(l[i as int]));
                        lemma_size_sum_take(model, i as int);
                        lemma_size_sum_prefix(model, i + 1);
                    }
                    let c = l[i].size();
                    acc = acc + c;
                    i = i + 1;
                }
                proof {
                    assert(model.take(model.len() as int) =~= model);
                }
                acc
            },
            DataValue::Dict(d) => {
                let ghost model = (match self@ {
                    Val::Dict(s) => s,
                    _ => Seq::empty(),
                });
                proof {
                    assert(*self == DataValue::Dict(*d));
                    assert(model.len() == d@.len());
                }
                let mut acc: usize = 0;
                let mut i: usize = 0;
                while i < d.len()
                    invariant
                        i <= d.len(),
                        *self == DataValue::Dict(*d),
                        spec_size(self@) <= usize::MAX,
                        model == (match self@ {
                            Val::Dict(s) => s,
                            _ => Seq::empty(),
                        }),
                        model.len() == d@.len(),
                        acc == size_entries(model.take(i as int)),
                    decreases d.len() - i,
                {
                    proof {
                        assert(decreases_to!(*self => *d));
                        assert(decreases_to!(*d => d[i as int]));
                        assert(decreases_to!(d[i as int] => d[i as int].1));
                        assert(model[i as int] == (d[i as int].0@, val_of(d[i as int].1)));
                        lemma_size_entries_take(model, i as int);
                        lemma_size_entries_prefix(model, i + 1);
                    }
                    let c = d[i].1.size();
                    acc = acc + c;
                    i = i + 1;
                }
                proof {
                    assert(model.take(model.len() as int) =~= model);
                }
                acc
            },
            DataValue::Tuple(p) => {
                let ghost model = (match self@ {
                    Val::Tup(s) => s,
                    _ => Seq::empty(),
                });
                proof {
                    assert(model =~= seq![val_of(*p.0), val_of(*p.1)]);
                    assert(model.drop_last() =~= seq![val_of(*p.0)]);
                    assert(model.drop_last().drop_last() =~= Seq::<Val>::empty());
                    assert(size_sum(model.drop_last().drop_last()) == 0);
                    assert(model.drop_last().last() == val_of(*p.0));
                    assert(model.last() == val_of(*p.1));
                    assert(size_sum(model.drop_last()) == spec_size(val_of(*p.0)));
                    assert(size_sum(model) == spec_size(val_of(*p.0)) + spec_size(
                        val_of(*p.1),
                    ));
                }
                let a = p.0.size();
                let b = p.1.size();
                a + b
            },
            DataValue::Binary(b) => b.size(),
        }
    }

    /// The weight, when the value has one.
    pub fn weight(&self) -> (r: Option<Num>)
        ensures
            r == spec_weight(self@),
        decreases *self,
    {
        match self {
            DataValue::Number(n) => Some(*n),
            DataValue::List(l) => {
                let ghost model = (match self@ {
                    Val::List(s) => s,
                    _ => Seq::empty(),
                });
                proof {
                    assert(*self == DataValue::List(*l));
                    assert(model.len() == l@.len());
                }
                let mut acc: Option<Num> = Some(Num::zero());
                let mut i: usize = 0;
                while i < l.len()
                    invariant
                        i <= l.len(),
                        *self == DataValue::List(*l),
                        model == (match self@ {
                            Val::List(s) => s,
                            _ => Seq::empty(),
                        }),
                        model.len() == l@.len(),
                        acc == wsum(model.take(i as int)),
                    decreases l.len() - i,
                {
                    proof {
                        assert(decreases_to!(*self => *l));
                        assert(decreases_to!(*l => l[i as int]));
                        assert(model[i as int] == val_of(l[i as int]));
                        lemma_wsum_take(model, i as int);
                    }
                    acc = match acc {
                        Some(a) => {
                            let w = l[i].weight();
                            let c = match w {
                                Some(n) => n,
                                None => Num::zero(),
                            };
                            num_add(a, c)
                        },
                        None => None,
                    };
                    i = i + 1;
                }
                proof {
                    assert(model.take(model.len() as int) =~= model);
                }
                acc
            },
            DataValue::Dict(d) => {
                let ghost model = (match self@ {
                    Val::Dict(s) => s,
                    _ => Seq::empty(),
                });
                proof {
                    assert(*self == DataValue::Dict(*d));
                    assert(model.len() == d@.len());
                }
                let mut acc: Option<Num> = Some(Num::zero());
                let mut i: usize = 0;
                while i < d.len()
                    invariant
                        i <= d.len(),
                        *self == DataValue::Dict(*d),
                        model == (match self@ {
                            Val::Dict(s) => s,
                            _ => Seq::empty(),
                        }),
                        model.len() == d@.len(),
                        acc == wsum_entries(model.take(i as int)),
                    decreases d.len() - i,
                {
                    proof {
                        assert(decreases_to!(*self => *d));
                        assert(decreases_to!(*d => d[i as int]));
                        assert(decreases_to!(d[i as int] => d[i as int].1));
                        assert(model[i as int] == (d[i as int].0@, val_of(d[i as int].1)));
                        lemma_wsum_entries_take(model, i as int);
                    }
                    acc = match acc {
                        Some(a) => {
                            let w = d[i].1.weight();
                            let c = match w {
                                Some(n) => n,
                                None => Num::zero(),
                            };
                            num_add(a, c)
                        },
                        None => None,
                    };
                    i = i + 1;
                }
                proof {
                    assert(model.take(model.len() as int) =~= model);
                }
                acc
            },
            DataValue::Tuple(p) => {
                let ghost model = (match self@ {
                    Val::Tup(s) => s,
                    _ => Seq::empty(),
                });
                proof {
                    assert(model =~= seq![val_of(*p.0), val_of(*p.1)]);
                    assert(model.drop_last() =~= seq![val_of(*p.0)]);
                    assert(model.drop_last().drop_last() =~= Seq::<Val>::empty());
                    assert(wsum(model.drop_last().drop_last()) == Some(
                        Num { neg: false, mant: 0, scale: 0 },
                    ));
                    assert(model.drop_last().last() == val_of(*p.0));
                    assert(model.last() == val_of(*p.1));
                }
                let w0 = p.0.weight();
                let c0 = match w0 {
                    Some(n) => n,
                    None => Num::zero(),
                };
                proof {
                    assert(c0 == wpart(spec_weight(val_of(*p.0))));
                    assert(wsum(model.drop_last()) == spec_add(
                        Num { neg: false, mant: 0, scale: 0 },
                        c0,
                    ));
                }
                let acc = match num_add(Num::zero(), c0) {
                    Some(a) => {
                        let w1 = p.1.weight();
                        let c1 = match w1 {
                            Some(n) => n,
                            None => Num::zero(),
                        };
                        num_add(a, c1)
                    },
                    None => None,
                };
                proof {
                    assert(acc == wsum(model));
                    assert(spec_weight(self@) == wsum(model));
                }
                acc
            },
            _ => {
                let r: Option<Num> = None;
                proof {
                    assert(spec_weight(self@) is None);
                }
                r
            },
        }
    }

    /// How this value orders against another, by weight.
    pub fn compare(&self, other: &DataValue) -> (r: Order)
        ensures
            r == spec_wcmp(spec_weight(self@), spec_weight(other@)),
    {
        let wa = self.weight();
        let wb = other.weight();
        match (wa, wb) {
            (Option::None, Option::None) => Order::Equal,
            (Option::None, Option::Some(_)) => Order::Greater,
            (Option::Some(_), Option::None) => Order::Less,
            (Option::Some(x), Option::Some(y)) => num_cmp(x, y),
        }
    }

    /// The name of this value's kind.
    pub fn datatype(&self) -> (r: String)
        ensures
            r@ == kind_name(self@),
    {
        let lit = match self {
            DataValue::Null => "None",
            DataValue::String(_) => "String",
            DataValue::Number(_) => "Number",
            DataValue::Boolean(_) => "Boolean",
            DataValue::List(_) => "List",
            DataValue::Dict(_) => "Dict",
            DataValue::Tuple(_) => "Tuple",
            DataValue::Binary(_) => "Binary",
        };
        proof {
            reveal_strlit("None");
            reveal_strlit("String");
            reveal_strlit("Number");
            reveal_strlit("Boolean");
            reveal_strlit("List");
            reveal_strlit("Dict");
            reveal_strlit("Tuple");
            reveal_strlit("Binary");
            assert(lit@ =~= kind_name(self@));
        }
        <String as vstd::string::StringExecFns>::from_str(lit)
    }

    /// A value equal to this one in every observable way.
    #[verifier::rlimit(60)]
    pub fn deep_copy(&self) -> (r: DataValue)
        ensures
            r@ == self@,
        decreases *self,
    {
        match self {
            DataValue::Null => DataValue::Null,
            DataValue::String(s) => DataValue::String(s.clone()),
            DataValue::Number(n) => DataValue::Number(*n),
            DataValue::Boolean(b) => DataValue::Boolean(*b),
            DataValue::List(l) => {
                let mut out: Vec<DataValue> = Vec::new();
                let mut i: usize = 0;
                while i < l.len()
                    invariant
                        i <= l.len(),
                        *self == DataValue::List(*l),
                        decreases_to!(*self => *l),
                        out@.len() == i,
                        forall|j: int| 0 <= j < i as int ==> (#[trigger] out@[j])@ == l@[j]@,
                    decreases l.len() - i,
                {
                    proof {
                        assert(decreases_to!(*l => l[i as int]));
                    }
                    let c = l[i].deep_copy();
                    out.push(c);
                    i = i + 1;
                }
                let r = DataValue::List(out);
                proof {
                    let ghost ms = (match r@ {
                        Val::List(s) => s,
                        _ => Seq::empty(),
                    });
                    let ghost mo = (match self@ {
                        Val::List(s) => s,
                        _ => Seq::empty(),
                    });
                    assert(ms.len() == mo.len());
                    assert forall|k: int| 0 <= k < ms.len() implies ms[k] == mo[k] by {
                        assert(out@[k]@ == l@[k]@);
                        assert(ms[k] == val_of(out@[k]));
                        assert(mo[k] == val_of(l@[k]));
                    }
                    assert(ms =~= mo);
                }
                r
            },
            DataValue::Dict(d) => {
                let mut out: Vec<(String, DataValue)> = Vec::new();
                let mut i: usize = 0;
                while i < d.len()
                    invariant
                        i <= d.len(),
                        *self == DataValue::Dict(*d),
                        decreases_to!(*self => *d),
                        out@.len() == i,
                        forall|j: int|
                            0 <= j < i as int ==> (#[trigger] out@[j]).0@ == d@[j].0@ && out@[j].1@
                                == d@[j].1@,
                    decreases d.len() - i,
                {
                    proof {
                        assert(decreases_to!(*d => d[i as int]));
                        assert(decreases_to!(d[i as int] => d[i as int].1));
                    }
                    let k = d[i].0.clone();
                    let c = d[i].1.deep_copy();
                    out.push((k, c));
                    i = i + 1;
                }
                let r = DataValue::Dict(out);
                proof {
                    let ghost ms = (match r@ {
                        Val::Dict(s) => s,
                        _ => Seq::empty(),
                    });
                    let ghost mo = (match self@ {
                        Val::Dict(s) => s,
                        _ => Seq::empty(),
                    });
                    assert(ms.len() == mo.len());
                    assert forall|k: int| 0 <= k < ms.len() implies ms[k] == mo[k] by {
                        assert(out@[k].0@ == d@[k].0@ && out@[k].1@ == d@[k].1@);
                        assert(ms[k] == (out@[k].0@, val_of(out@[k].1)));
                        assert(mo[k] == (d@[k].0@, val_of(d@[k].1)));
                    }
                    assert(ms =~= mo);
                }
                r
            },
            DataValue::Tuple(p) => {
                let a = p.0.deep_copy();
                let b = p.1.deep_copy();
                DataValue::Tuple((Box::new(a), Box::new(b)))
            },
            DataValue::Binary(b) => DataValue::Binary(b.duplicate()),
        }
    }

    /// The text payload, when this is a String.
    pub fn as_string(&self) -> (r: Option<String>)
        ensures
            r is Some <==> self@ matches Val::Str(_),
            r matches Some(s) ==> self@ == Val::Str(s@),
    {
        match self {
            DataValue::String(s) => Some(s.clone()),
            _ => None,
        }
    }

    /// The number payload, when this is a Number.
    pub fn as_number(&self) -> (r: Option<Num>)
        ensures
            r is Some <==> self@ matches Val::Number(_),
            r matches Some(n) ==> self@ == Val::Number(n),
    {
        match self {
            DataValue::Number(n) => Some(*n),
            _ => None,
        }
    }

    /// The truth value, when this is a Boolean.
    pub fn as_bool(&self) -> (r: Option<bool>)
        ensures
            r is Some <==> self@ matches Val::Bool(_),
            r matches Some(b) ==> self@ == Val::Bool(b),
    {
        match self {
            DataValue::Boolean(b) => Some(*b),
            _ => None,
        }
    }

    /// The two children, when this is a Tuple.
    pub fn as_tuple(&self) -> (r: Option<(Box<DataValue>, Box<DataValue>)>)
        ensures
            r is Some <==> self@ matches Val::Tup(_),
            r matches Some(p) ==> self@ == Val::Tup(seq![p.0@, p.1@]),
    {
        match self {
            DataValue::Tuple(p) => {
                let a = p.0.deep_copy();
                let b = p.1.deep_copy();
                let r = Some((Box::new(a), Box::new(b)));
                proof {
                    assert(seq![val_of(a), val_of(b)] =~= seq![val_of(*p.0), val_of(*p.1)]);
                }
                r
            },
            _ => None,
        }
    }

    /// The elements, when this is a List.
    #[verifier::rlimit(60)]
    pub fn as_list(&self) -> (r: Option<Vec<DataValue>>)
        ensures
            r is Some <==> self@ matches Val::List(_),
            r matches Some(l) ==> (self@ matches Val::List(s) && s.len() == l@.len() && forall|
                j: int,
            | 0 <= j < s.len() ==> s[j] == #[trigger] l@[j]@),
    {
        match self {
            DataValue::List(l) => {
                let mut out: Vec<DataValue> = Vec::new();
                let mut i: usize = 0;
                while i < l.len()
                    invariant
                        i <= l.len(),
                        *self == DataValue::List(*l),
                        decreases_to!(*self => *l),
                        out@.len() == i,
                        forall|j: int| 0 <= j < i as int ==> (#[trigger] out@[j])@ == l@[j]@,
                    decreases l.len() - i,
                {
                    proof {
                        assert(decreases_to!(*l => l[i as int]));
                    }
                    let c = l[i].deep_copy();
                    out.push(c);
                    i = i + 1;
                }
                Some(out)
            },
            _ => None,
        }
    }

    /// The entries, when this is a Dict.
    #[verifier::rlimit(60)]
    pub fn as_dict(&self) -> (r: Option<Vec<(String, DataValue)>>)
        ensures
            r is Some <==> self@ matches Val::Dict(_),
            r matches Some(m) ==> (self@ matches Val::Dict(s) && s.len() == m@.len() && forall|
                j: int,
            |
                0 <= j < s.len() ==> s[j].0 == (#[trigger] m@[j]).0@ && s[j].1 == m@[j].1@),
    {
        match self {
            DataValue::Dict(d) => {
                let mut out: Vec<(String, DataValue)> = Vec::new();
                let mut i: usize = 0;
                while i < d.len()
                    invariant
                        i <= d.len(),
                        *self == DataValue::Dict(*d),
                        decreases_to!(*self => *d),
                        out@.len() == i,
                        forall|j: int|
                            0 <= j < i as int ==> (#[trigger] out@[j]).0@ == d@[j].0@ && out@[j].1@
                                == d@[j].1@,
                    decreases d.len() - i,
                {
                    proof {
                        assert(decreases_to!(*d => d[i as int]));
                        assert(decreases_to!(d[i as int] => d[i as int].1));
                    }
                    let k = d[i].0.clone();
                    let c = d[i].1.deep_copy();
                    out.push((k, c));
                    i = i + 1;
                }
                Some(out)
            },
            _ => None,
        }
    }
}

} // verus!

verus! {

use crate::number::dec_str;

/// A number in the structural form: whole numbers carry a trailing `.0`.
pub open spec fn json_num(n: Num) -> Seq<char> {
    if n.scale == 0 {
        num_text(n) + seq!['.', '0']
    } else {
        num_text(n)
    }
}

/// The JSON-like structural form: a single-key object whose key is the
/// variant name; tuples render as two-element arrays, dicts as objects,
/// blobs as their byte list; string payloads are emitted verbatim, as in
/// the canonical text form.
pub open spec fn json_text(m: Val) -> Seq<char>
    decreases m,
{
    match m {
        Val::Null => seq!['"', 'N', 'o', 'n', 'e', '"'],
        Val::Str(t) => seq!['{', '"', 'S', 't', 'r', 'i', 'n', 'g', '"', ':', '"'] + t + seq![
            '"',
            '}',
        ],
        Val::Number(n) => seq!['{', '"', 'N', 'u', 'm', 'b', 'e', 'r', '"', ':'] + json_num(n)
            + seq!['}'],
        Val::Bool(b) => if b {
            seq!['{', '"', 'B', 'o', 'o', 'l', 'e', 'a', 'n', '"', ':', 't', 'r', 'u', 'e', '}']
        } else {
            seq![
                '{',
                '"',
                'B',
                'o',
                'o',
                'l',
                'e',
                'a',
                'n',
                '"',
                ':',
                'f',
                'a',
                'l',
                's',
                'e',
                '}',
            ]
        },
        Val::List(l) => seq!['{', '"', 'L', 'i', 's', 't', '"', ':', '['] + json_items(l) + seq![
            ']',
            '}',
        ],
        Val::Dict(d) => seq!['{', '"', 'D', 'i', 'c', 't', '"', ':', '{'] + json_entries(d)
            + seq!['}', '}'],
        Val::Tup(p) => if p.len() == 2 {
            seq!['{', '"', 'T', 'u', 'p', 'l', 'e', '"', ':', '['] + json_text(p[0]) + seq![',']
                + json_text(p[1]) + seq![']', '}']
        } else {
            Seq::empty()
        },
        Val::Bin(bs) => seq!['{', '"', 'B', 'i', 'n', 'a', 'r', 'y', '"', ':', '{', '"', 'd',
            'a', 't', 'a', '"', ':', '['] + json_bytes(bs) + seq![']', '}', '}'],
    }
}

/// Array elements joined by commas.
pub open spec fn json_items(l: Seq<Val>) -> Seq<char>
    decreases l,
{
    if l.len() == 0 {
        Seq::empty()
    } else if l.len() == 1 {
        json_text(l[0])
    } else {
        json_items(l.drop_last()) + seq![','] + json_text(l.last())
    }
}

/// One object entry, `"key":value`.
pub open spec fn json_entry(e: (Seq<char>, Val)) -> Seq<char>
    decreases e,
{
    seq!['"'] + e.0 + seq!['"', ':'] + json_text(e.1)
}

/// Object entries joined by commas.
pub open spec fn json_entries(d: Seq<(Seq<char>, Val)>) -> Seq<char>
    decreases d,
{
    if d.len() == 0 {
        Seq::empty()
    } else if d.len() == 1 {
        json_entry(d[0])
    } else {
        json_entries(d.drop_last()) + seq![','] + json_entry(d.last())
    }
}

/// A byte list in decimal, joined by commas.
pub open spec fn json_bytes(bs: Seq<u8>) -> Seq<char>
    decreases bs,
{
    if bs.len() == 0 {
        Seq::empty()
    } else if bs.len() == 1 {
        dec_str(bs[0] as nat)
    } else {
        json_bytes(bs.drop_last()) + seq![','] + dec_str(bs.last() as nat)
    }
}

proof fn lemma_json_items_take(l: Seq<Val>, i: int)
    requires
        0 <= i < l.len(),
    ensures
        json_items(l.take(i + 1)) == if i == 0 {
            json_text(l[0])
        } else {
            json_items(l.take(i)) + seq![','] + json_text(l[i])
        },
{
    let t = l.take(i + 1);
    assert(t.len() == i + 1);
    if i == 0 {
        assert(t[0] == l[0]);
    } else {
        assert(t.drop_last() =~= l.take(i));
        assert(t.last() == l[i]);
    }
}

proof fn lemma_json_entries_take(d: Seq<(Seq<char>, Val)>, i: int)
    requires
        0 <= i < d.len(),
    ensures
        json_entries(d.take(i + 1)) == if i == 0 {
            json_entry(d[0])
        } else {
            json_entries(d.take(i)) + seq![','] + json_entry(d[i])
        },
{
    let t = d.take(i + 1);
    assert(t.len() == i + 1);
    if i == 0 {
        assert(t[0] == d[0]);
    } else {
        assert(t.drop_last() =~= d.take(i));
        assert(t.last() == d[i]);
    }
}

proof fn lemma_json_bytes_take(bs: Seq<u8>, i: int)
    requires
        0 <= i < bs.len(),
    ensures
        json_bytes(bs.take(i + 1)) == if i == 0 {
            dec_str(bs[0] as nat)
        } else {
            json_bytes(bs.take(i)) + seq![','] + dec_str(bs[i] as nat)
        },
{
    let t = bs.take(i + 1);
    assert(t.len() == i + 1);
    if i == 0 {
        assert(t[0] == bs[0]);
    } else {
        assert(t.drop_last() =~= bs.take(i));
        assert(t.last() == bs[i]);
    }
}

/// Pushes each character of a fragment onto `out`.
fn push_lit(out: &mut Vec<char>, lit: &Vec<char>)
    ensures
        final(out)@ == old(out)@ + lit@,
{
    let ghost base = out@;
    let mut i: usize = 0;
    while i < lit.len()
        invariant
            i <= lit.len(),
            out@ == base + lit@.take(i as int),
        decreases lit.len() - i,
    {
        out.push(lit[i]);
        i = i + 1;
        proof {
            assert(out@ =~= base + lit@.take(i as int));
        }
    }
    proof {
        assert(lit@.take(lit@.len() as int) =~= lit@);
    }
}

/// Appends the structural form of `v` to `out`.
fn push_json(out: &mut Vec<char>, v: &DataValue)
    ensures
        final(out)@ == old(out)@ + json_text(v@),
    decreases *v,
{
    let ghost base = out@;
    match v {
        DataValue::Null => {
            out.push('"');
            out.push('N');
            out.push('o');
            out.push('n');
            out.push('e');
            out.push('"');
            proof {
                assert(out@ =~= base + json_text(v@));
            }
        },
        DataValue::String(s) => {
            out.push('{');
            out.push('"');
            out.push('S');
            out.push('t');
            out.push('r');
            out.push('i');
            out.push('n');
            out.push('g');
            out.push('"');
            out.push(':');
            out.push('"');
            let cs = chars_vec(s.as_str());
            push_lit(out, &cs);
            out.push('"');
            out.push('}');
            proof {
                assert(out@ =~= base + json_text(v@));
            }
        },
        DataValue::Number(n) => {
            out.push('{');
            out.push('"');
            out.push('N');
            out.push('u');
            out.push('m');
            out.push('b');
            out.push('e');
            out.push('r');
            out.push('"');
            out.push(':');
            let cs = num_chars(n);
            push_lit(out, &cs);
            if n.scale == 0 {
                out.push('.');
                out.push('0');
            }
            out.push('}');
            proof {
                assert(out@ =~= base + json_text(v@));
            }
        },
        DataValue::Boolean(b) => {
            out.push('{');
            out.push('"');
            out.push('B');
            out.push('o');
            out.push('o');
            out.push('l');
            out.push('e');
            out.push('a');
            out.push('n');
            out.push('"');
            out.push(':');
            if *b {
                out.push('t');
                out.push('r');
                out.push('u');
                out.push('e');
            } else {
                out.push('f');
                out.push('a');
                out.push('l');
                out.push('s');
                out.push('e');
            }
            out.push('}');
            proof {
                assert(out@ =~= base + json_text(v@));
            }
        },
        DataValue::List(l) => {
            out.push('{');
            out.push('"');
            out.push('L');
            out.push('i');
            out.push('s');
            out.push('t');
            out.push('"');
            out.push(':');
            out.push('[');
            let ghost model = (match v@ {
                Val::List(s) => s,
                _ => Seq::empty(),
            });
            let ghost head = out@;
            proof {
                assert(*v == DataValue::List(*l));
                assert(model.len() == l@.len());
                assert(decreases_to!(*v => *l));
            }
            let mut i: usize = 0;
            while i < l.len()
                invariant
                    i <= l.len(),
                    *v == DataValue::List(*l),
                    decreases_to!(*v => *l),
                    model == (match v@ {
                        Val::List(s) => s,
                        _ => Seq::empty(),
                    }),
                    model.len() == l@.len(),
                    out@ == head + json_items(model.take(i as int)),
                decreases l.len() - i,
            {
                if i > 0 {
                    out.push(',');
                }
                proof {
                    assert(decreases_to!(*l => l[i as int]));
                }
                push_json(out, &l[i]);
                i = i + 1;
                proof {
                    lemma_json_items_take(model, i - 1);
                    assert(model[i - 1] == val_of(l[i - 1]));
                    assert(out@ =~= head + json_items(model.take(i as int)));
                }
            }
            out.push(']');
            out.push('}');
            proof {
                assert(model.take(model.len() as int) =~= model);
                assert(out@ =~= base + json_text(v@));
            }
        },
        DataValue::Dict(d) => {
            out.push('{');
            out.push('"');
            out.push('D');
            out.push('i');
            out.push('c');
            out.push('t');
            out.push('"');
            out.push(':');
            out.push('{');
            let ghost model = (match v@ {
                Val::Dict(s) => s,
                _ => Seq::empty(),
            });
            let ghost head = out@;
            proof {
                assert(*v == DataValue::Dict(*d));
                assert(model.len() == d@.len());
                assert(decreases_to!(*v => *d));
            }
            let mut i: usize = 0;
            while i < d.len()
                invariant
                    i <= d.len(),
                    *v == DataValue::Dict(*d),
                    decreases_to!(*v => *d),
                    model == (match v@ {
                        Val::Dict(s) => s,
                        _ => Seq::empty(),
                    }),
                    model.len() == d@.len(),
                    out@ == head + json_entries(model.take(i as int)),
                decreases d.len() - i,
            {
                if i > 0 {
                    out.push(',');
                }
                out.push('"');
                let ks = chars_vec(d[i].0.as_str());
                push_lit(out, &ks);
                out.push('"');
                out.push(':');
                proof {
                    assert(decreases_to!(*d => d[i as int]));
                    assert(decreases_to!(d[i as int] => d[i as int].1));
                }
                push_json(out, &d[i].1);
                i = i + 1;
                proof {
                    lemma_json_entries_take(model, i - 1);
                    assert(model[i - 1] == (d[i - 1].0@, val_of(d[i - 1].1)));
                    assert(out@ =~= head + json_entries(model.take(i as int)));
                }
            }
            out.push('}');
            out.push('}');
            proof {
                assert(model.take(model.len() as int) =~= model);
                assert(out@ =~= base + json_text(v@));
            }
        },
        DataValue::Tuple(p) => {
            out.push('{');
            out.push('"');
            out.push('T');
            out.push('u');
            out.push('p');
            out.push('l');
            out.push('e');
            out.push('"');
            out.push(':');
            out.push('[');
            push_json(out, &p.0);
            out.push(',');
            push_json(out, &p.1);
            out.push(']');
            out.push('}');
            proof {
                assert(out@ =~= base + json_text(v@));
            }
        },
        DataValue::Binary(b) => {
            out.push('{');
            out.push('"');
            out.push('B');
            out.push('i');
            out.push('n');
            out.push('a');
            out.push('r');
            out.push('y');
            out.push('"');
            out.push(':');
            out.push('{');
            out.push('"');
            out.push('d');
            out.push('a');
            out.push('t');
            out.push('a');
            out.push('"');
            out.push(':');
            out.push('[');
            let ghost head = out@;
            let bytes = b.raw();
            let mut i: usize = 0;
            while i < bytes.len()
                invariant
                    i <= bytes.len(),
                    bytes@ == b@,
                    out@ == head + json_bytes(b@.take(i as int)),
                decreases bytes.len() - i,
            {
                if i > 0 {
                    out.push(',');
                }
                let mut digits: Vec<char> = Vec::new();
                crate::number::push_byte_digits(&mut digits, bytes[i]);
                push_lit(out, &digits);
                i = i + 1;
                proof {
                    lemma_json_bytes_take(b@, i - 1);
                    assert(Seq::<char>::empty() + dec_str(b@[i - 1] as nat) =~= dec_str(
                        b@[i - 1] as nat,
                    ));
                    assert(out@ =~= head + json_bytes(b@.take(i as int)));
                }
            }
            out.push(']');
            out.push('}');
            out.push('}');
            proof {
                assert(b@.take(b@.len() as int) =~= b@);
                assert(out@ =~= base + json_text(v@));
            }
        },
    }
}

impl DataValue {
    /// Whether two values have the same canonical text form; this is the
    /// equality the ordering's ties are measured against.
    pub fn eq_value(&self, other: &DataValue) -> (r: bool)
        ensures
            r == (print_val(self@) == print_val(other@)),
    {
        let a = self.to_string();
        let b = other.to_string();
        a == b
    }

    /// The JSON-like structural form of this value.
    pub fn to_json(&self) -> (r: String)
        ensures
            r@ == json_text(self@),
    {
        let mut out: Vec<char> = Vec::new();
        push_json(&mut out, self);
        proof {
            assert(Seq::<char>::empty() + json_text(self@) =~= json_text(self@));
        }
        string_from_chars(&out)
    }
}

} // verus!
