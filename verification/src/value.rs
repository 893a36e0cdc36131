use vstd::prelude::*;

verus! {

/// A parsed document value: a scalar (null, boolean, number, string), a
/// sequence of values, a mapping from keys to values, or a tagged wrapper
/// around another value. Mapping keys, scalar text and the tagged wrapper's
/// inline rendering are carried in display form, so all of the viewer's
/// logic works on plain data.
#[derive(Debug, PartialEq)]
pub enum Value {
    Null,
    Bool(bool),
    Number(String),
    Str(String),
    Sequence(Vec<Value>),
    Mapping(Vec<(String, Value)>),
    Tagged(String, Box<Value>),
}

/// The mathematical model of a `Value`.
#[verifier::ext_equal]
pub enum ValueV {
    Null,
    Bool(bool),
    Number(Seq<char>),
    Str(Seq<char>),
    Sequence(Seq<ValueV>),
    Mapping(Seq<(Seq<char>, ValueV)>),
    Tagged(Seq<char>, Box<ValueV>),
}

impl ValueV {
    /// Containers are the values whose children can be expanded or collapsed.
    pub open spec fn is_container(self) -> bool {
        self is Sequence || self is Mapping
    }
}

/// Views of the elements of a sequence value.
pub open spec fn seq_views(items: Seq<Value>) -> Seq<ValueV>
    decreases items, 0int,
{
    if items.len() == 0 {
        Seq::empty()
    } else {
        seq_views(items.drop_last()).push(items.last()@)
    }
}

/// Views of the entries of a mapping value.
pub open spec fn entry_views(entries: Seq<(String, Value)>) -> Seq<(Seq<char>, ValueV)>
    decreases entries, 0int,
{
    if entries.len() == 0 {
        Seq::empty()
    } else {
        entry_views(entries.drop_last()).push((entries.last().0@, entries.last().1@))
    }
}

impl View for Value {
    type V = ValueV;

    open spec fn view(&self) -> ValueV
        decreases self, 1int,
    {
        match self {
            Value::Null => ValueV::Null,
            Value::Bool(b) => ValueV::Bool(*b),
            Value::Number(s) => ValueV::Number(s@),
            Value::Str(s) => ValueV::Str(s@),
            Value::Sequence(items) => ValueV::Sequence(seq_views(items@)),
            Value::Mapping(entries) => ValueV::Mapping(entry_views(entries@)),
            Value::Tagged(tag, inner) => ValueV::Tagged(tag@, Box::new((**inner)@)),
        }
    }
}

pub proof fn lemma_seq_views(items: Seq<Value>)
    ensures
        seq_views(items).len() == items.len(),
        forall|i: int| 0 <= i < items.len() ==> seq_views(items)[i] == #[trigger] items[i]@,
    decreases items.len(),
{
    if items.len() > 0 {
        lemma_seq_views(items.drop_last());
        assert(seq_views(items) == seq_views(items.drop_last()).push(items.last()@));
        assert forall|i: int| 0 <= i < items.len() implies seq_views(items)[i]
            == #[trigger] items[i]@ by {
            if i < items.len() - 1 {
                assert(items.drop_last()[i] == items[i]);
                assert(seq_views(items)[i] == seq_views(items.drop_last())[i]);
            } else {
                assert(seq_views(items)[i] == items.last()@);
            }
        }
    }
}

pub proof fn lemma_entry_views(entries: Seq<(String, Value)>)
    ensures
        entry_views(entries).len() == entries.len(),
        forall|i: int| 0 <= i < entries.len() ==> entry_views(entries)[i]
            == (#[trigger] entries[i].0@, entries[i].1@),
    decreases entries.len(),
{
    if entries.len() > 0 {
        lemma_entry_views(entries.drop_last());
        assert(entry_views(entries)
            == entry_views(entries.drop_last()).push((entries.last().0@, entries.last().1@)));
        assert forall|i: int| 0 <= i < entries.len() implies entry_views(entries)[i]
            == (#[trigger] entries[i].0@, entries[i].1@) by {
            if i < entries.len() - 1 {
                assert(entries.drop_last()[i] == entries[i]);
                assert(entry_views(entries)[i] == entry_views(entries.drop_last())[i]);
            } else {
                assert(entry_views(entries)[i] == (entries.last().0@, entries.last().1@));
            }
        }
    }
}

/// Nesting height of a value: 0 for scalars, one more than the highest
/// child for sequences, mappings and tagged wrappers. It bounds the depth
/// counter during tree construction.
pub open spec fn vheight(v: ValueV) -> nat
    decreases v, 1int,
{
    match v {
        ValueV::Sequence(items) => 1 + seq_vheight(items),
        ValueV::Mapping(entries) => 1 + entry_vheight(entries),
        ValueV::Tagged(_, inner) => 1 + vheight(*inner),
        _ => 0,
    }
}

pub open spec fn seq_vheight(items: Seq<ValueV>) -> nat
    decreases items, 0int,
{
    if items.len() == 0 {
        0
    } else if vheight(items.last()) > seq_vheight(items.drop_last()) {
        vheight(items.last())
    } else {
        seq_vheight(items.drop_last())
    }
}

pub open spec fn entry_vheight(entries: Seq<(Seq<char>, ValueV)>) -> nat
    decreases entries, 0int,
{
    if entries.len() == 0 {
        0
    } else if vheight(entries.last().1) > entry_vheight(entries.drop_last()) {
        vheight(entries.last().1)
    } else {
        entry_vheight(entries.drop_last())
    }
}

pub proof fn lemma_seq_vheight(items: Seq<ValueV>, i: int)
    requires
        0 <= i < items.len(),
    ensures
        vheight(items[i]) <= seq_vheight(items),
    decreases items.len(),
{
    assert(seq_vheight(items) >= seq_vheight(items.drop_last()));
    if i < items.len() - 1 {
        lemma_seq_vheight(items.drop_last(), i);
        assert(items.drop_last()[i] == items[i]);
    }
}

pub proof fn lemma_entry_vheight(entries: Seq<(Seq<char>, ValueV)>, i: int)
    requires
        0 <= i < entries.len(),
    ensures
        vheight(entries[i].1) <= entry_vheight(entries),
    decreases entries.len(),
{
    assert(entry_vheight(entries) >= entry_vheight(entries.drop_last()));
    if i < entries.len() - 1 {
        lemma_entry_vheight(entries.drop_last(), i);
        assert(entries.drop_last()[i] == entries[i]);
    }
}

impl Value {
    /// Whether this value is a container (sequence or mapping), the only
    /// kind of value whose node reacts to an expand/collapse toggle.
    pub fn is_container(&self) -> (r: bool)
        ensures
            r == self@.is_container(),
    {
        matches!(self, Value::Mapping(_) | Value::Sequence(_))
    }

    /// The label naming this value's kind, as shown in the debug panel.
    pub fn kind_label(&self) -> (r: &'static str)
        ensures
            r@ == spec_kind_label(self@),
    {
        match self {
            Value::Null => "Null",
            Value::Bool(_) => "Bool",
            Value::Number(_) => "Number",
            Value::Str(_) => "String",
            Value::Sequence(_) => "Sequence",
            Value::Mapping(_) => "Mapping",
            Value::Tagged(_, _) => "Tagged",
        }
    }
}

pub open spec fn spec_kind_label(v: ValueV) -> Seq<char> {
    match v {
        ValueV::Null => "Null"@,
        ValueV::Bool(_) => "Bool"@,
        ValueV::Number(_) => "Number"@,
        ValueV::Str(_) => "String"@,
        ValueV::Sequence(_) => "Sequence"@,
        ValueV::Mapping(_) => "Mapping"@,
        ValueV::Tagged(_, _) => "Tagged"@,
    }
}

impl Clone for Value {
    /// A deep copy with the same model.
    #[verifier::loop_isolation(false)]
    fn clone(&self) -> (r: Self)
        ensures
            r@ == self@,
        decreases self,
    {
        match self {
            Value::Null => Value::Null,
            Value::Bool(b) => Value::Bool(*b),
            Value::Number(s) => Value::Number(s.clone()),
            Value::Str(s) => Value::Str(s.clone()),
            Value::Sequence(items) => {
                let mut out: Vec<Value> = Vec::new();
                let n = items.len();
                let mut j: usize = 0;
                while j < n
                    invariant
                        j <= n,
                        n == items@.len(),
                        out@.len() == j,
                        forall|t: int| 0 <= t < j ==> out@[t]@ == #[trigger] items@[t]@,
                    decreases n - j,
                {
                    proof {
                        assert(*self == Value::Sequence(*items));
                        assert(decreases_to!(*self => *items));
                        assert(decreases_to!(items => items@[j as int]));
                        assert(decreases_to!(self => items@[j as int]));
                    }
                    out.push(items[j].clone());
                    j += 1;
                }
                proof {
                    lemma_seq_views(out@);
                    lemma_seq_views(items@);
                    assert forall|t: int| 0 <= t < out@.len() implies seq_views(out@)[t]
                        == seq_views(items@)[t] by {
                        assert(out@[t]@ == items@[t]@);
                    }
                    assert(seq_views(out@) =~= seq_views(items@));
                }
                Value::Sequence(out)
            },
            Value::Mapping(entries) => {
                let mut out: Vec<(String, Value)> = Vec::new();
                let n = entries.len();
                let mut j: usize = 0;
                while j < n
                    invariant
                        j <= n,
                        n == entries@.len(),
                        out@.len() == j,
                        forall|t: int| 0 <= t < j ==> (#[trigger] out@[t]).0@ == entries@[t].0@
                            && out@[t].1@ == entries@[t].1@,
                    decreases n - j,
                {
                    proof {
                        assert(*self == Value::Mapping(*entries));
                        assert(decreases_to!(*self => *entries));
                        assert(decreases_to!(entries => entries@[j as int]));
                        assert(decreases_to!(entries@[j as int] => entries@[j as int].1));
                        assert(decreases_to!(self => entries@[j as int].1));
                    }
                    let e = &entries[j];
                    out.push((e.0.clone(), e.1.clone()));
                    j += 1;
                }
                proof {
                    lemma_entry_views(out@);
                    lemma_entry_views(entries@);
                    assert forall|t: int| 0 <= t < out@.len() implies entry_views(out@)[t]
                        == entry_views(entries@)[t] by {
                        assert(out@[t].0@ == entries@[t].0@);
                        assert(out@[t].1@ == entries@[t].1@);
                    }
                    assert(entry_views(out@) =~= entry_views(entries@));
                }
                Value::Mapping(out)
            },
            Value::Tagged(tag, inner) => Value::Tagged(tag.clone(), Box::new((**inner).clone())),
        }
    }
}

} // verus!
