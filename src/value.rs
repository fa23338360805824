use vstd::prelude::*;
use vstd::string::StringExecFns;

verus! {

/// Data flowing through a pipeline.
///
/// A `Row` is an ordered record: its field order is the column order used
/// when it is displayed, and a well-formed row has unique field names. Its
/// fields are a vector of pairs, searched in order: a map type declared from
/// another crate cannot hold `Value` itself, as this enum would need.
#[derive(Debug)]
pub enum Value {
    String(String),
    Bool(bool),
    Nothing,
    Row(Vec<(String, Value)>),
    List(Vec<Value>),
}

/// The text a value is displayed as.
pub open spec fn text_of(v: Value) -> Seq<char>
    decreases v,
{
    match v {
        Value::String(s) => s@,
        Value::Bool(b) => if b {
            seq!['t', 'r', 'u', 'e']
        } else {
            seq!['f', 'a', 'l', 's', 'e']
        },
        Value::Nothing => Seq::empty(),
        Value::Row(fields) => {
            proof {
                broadcast use vstd::std_specs::vec::axiom_vec_decreases_to_view;
            }
            seq!['{'] + fields_text(fields@) + seq!['}']
        },
        Value::List(items) => {
            proof {
                broadcast use vstd::std_specs::vec::axiom_vec_decreases_to_view;
            }
            seq!['['] + items_text(items@) + seq![']']
        },
    }
}

/// The entries of a record shown as `key: value`, separated by `", "`.
pub open spec fn fields_text(fields: Seq<(String, Value)>) -> Seq<char>
    decreases fields,
{
    if fields.len() == 0 {
        Seq::empty()
    } else {
        proof {
            broadcast use vstd::seq::axiom_seq_index_decreases;
            broadcast use vstd::seq::axiom_seq_subrange_decreases;
        }
        let init = fields.drop_last();
        let last = fields.last();
        let entry = last.0@ + seq![':', ' '] + text_of(last.1);
        if init.len() == 0 {
            entry
        } else {
            fields_text(init) + seq![',', ' '] + entry
        }
    }
}

/// The elements of a list shown in order, separated by `", "`.
pub open spec fn items_text(items: Seq<Value>) -> Seq<char>
    decreases items,
{
    if items.len() == 0 {
        Seq::empty()
    } else {
        proof {
            broadcast use vstd::seq::axiom_seq_index_decreases;
            broadcast use vstd::seq::axiom_seq_subrange_decreases;
        }
        let init = items.drop_last();
        if init.len() == 0 {
            text_of(items.last())
        } else {
            items_text(init) + seq![',', ' '] + text_of(items.last())
        }
    }
}

impl Value {
    /// The display text of this value, as `text_of` gives it.
    pub fn display(&self) -> (r: String)
        ensures
            r@ == text_of(*self),
        decreases self,
    {
        match self {
            Value::String(s) => s.clone(),
            Value::Bool(b) => {
                if *b {
                    proof {
                        reveal_strlit("true");
                    }
                    String::from_str("true")
                } else {
                    proof {
                        reveal_strlit("false");
                    }
                    String::from_str("false")
                }
            },
            Value::Nothing => String::new(),
            Value::Row(fields) => {
                proof {
                    reveal_strlit("{");
                    reveal_strlit("}");
                    reveal_strlit(", ");
                    reveal_strlit(": ");
                }
                let mut out = String::from_str("{");
                let mut i: usize = 0;
                while i < fields.len()
                    invariant
                        i <= fields@.len(),
                        *self == Value::Row(*fields),
                        out@ == seq!['{'] + fields_text(fields@.take(i as int)),
                    decreases fields@.len() - i,
                {
                    proof {
                        broadcast use vstd::std_specs::vec::axiom_vec_decreases_to_view;
                        broadcast use vstd::seq::axiom_seq_index_decreases;
                        assert(decreases_to!(*self => self->Row_0));
                        assert(self->Row_0 == *fields);
                        assert(decreases_to!(*fields => fields@));
                        assert(decreases_to!(fields@ => fields@[i as int]));
                        assert(decreases_to!(fields@[i as int] => fields@[i as int].1));
                    }
                    let t = fields[i].1.display();
                    let mut entry = fields[i].0.clone();
                    entry.append(": ");
                    entry.append(t.as_str());
                    proof {
                        reveal_strlit(", ");
                        reveal_strlit(": ");
                    }
                    if i > 0 {
                        out.append(", ");
                    }
                    out.append(entry.as_str());
                    proof {
                        let next = fields@.take(i + 1);
                        assert(next.drop_last() =~= fields@.take(i as int));
                        assert(next.last() == fields@[i as int]);
                        let prev = fields_text(fields@.take(i as int));
                        if i == 0 {
                            assert(prev.len() == 0);
                            assert(out@ =~= seq!['{'] + entry@);
                        } else {
                            assert(out@ =~= seq!['{'] + (prev + seq![',', ' '] + entry@));
                        }
                    }
                    i = i + 1;
                }
                proof {
                    assert(fields@.take(i as int) =~= fields@);
                }
                out.append("}");
                out
            },
            Value::List(items) => {
                proof {
                    reveal_strlit("[");
                    reveal_strlit("]");
                    reveal_strlit(", ");
                }
                let mut out = String::from_str("[");
                let mut i: usize = 0;
                while i < items.len()
                    invariant
                        i <= items@.len(),
                        *self == Value::List(*items),
                        out@ == seq!['['] + items_text(items@.take(i as int)),
                    decreases items@.len() - i,
                {
                    proof {
                        broadcast use vstd::std_specs::vec::axiom_vec_decreases_to_view;
                        broadcast use vstd::seq::axiom_seq_index_decreases;
                        assert(decreases_to!(*self => self->List_0));
                        assert(self->List_0 == *items);
                        assert(decreases_to!(*items => items@));
                        assert(decreases_to!(items@ => items@[i as int]));
                    }
                    let t = items[i].display();
                    proof {
                        reveal_strlit(", ");
                    }
                    if i > 0 {
                        out.append(", ");
                    }
                    out.append(t.as_str());
                    proof {
                        let next = items@.take(i + 1);
                        assert(next.drop_last() =~= items@.take(i as int));
                        assert(next.last() == items@[i as int]);
                        let prev = items_text(items@.take(i as int));
                        if i == 0 {
                            assert(prev.len() == 0);
                            assert(out@ =~= seq!['['] + t@);
                        } else {
                            assert(out@ =~= seq!['['] + (prev + seq![',', ' '] + t@));
                        }
                    }
                    i = i + 1;
                }
                proof {
                    assert(items@.take(i as int) =~= items@);
                }
                out.append("]");
                out
            },
        }
    }
}

/// The field names of a value: those of a row, in order; none otherwise.
pub open spec fn names_of(v: Value) -> Seq<Seq<char>> {
    match v {
        Value::Row(fields) => fields@.map_values(|p: (String, Value)| p.0@),
        _ => Seq::empty(),
    }
}

/// The index of the first of the first `n` fields named `key`.
pub open spec fn find_key(fields: Seq<(String, Value)>, key: Seq<char>, n: int) -> Option<int>
    decreases n,
{
    if n <= 0 {
        None
    } else {
        match find_key(fields, key, n - 1) {
            Some(j) => Some(j),
            None => if fields[n - 1].0@ == key { Some(n - 1) } else { None },
        }
    }
}

/// The field of `fields` named `key`, if there is one.
pub open spec fn field_of(fields: Seq<(String, Value)>, key: Seq<char>) -> Option<Value> {
    match find_key(fields, key, fields.len() as int) {
        Some(j) => Some(fields[j].1),
        None => None,
    }
}

/// A row's field names are distinct.
pub open spec fn unique_names(v: Value) -> bool {
    forall|i: int, j: int|
        0 <= i < j < names_of(v).len() ==> names_of(v)[i] != names_of(v)[j]
}

pub proof fn lemma_find_key_bounds(fields: Seq<(String, Value)>, key: Seq<char>, n: int)
    requires
        0 <= n <= fields.len(),
    ensures
        match find_key(fields, key, n) {
            Some(j) => 0 <= j < n && fields[j].0@ == key,
            None => forall|i: int| 0 <= i < n ==> fields[i].0@ != key,
        },
    decreases n,
{
    if n > 0 {
        lemma_find_key_bounds(fields, key, n - 1);
    }
}

/// The index of the first field named `key`.
pub(crate) fn find_field(fields: &Vec<(String, Value)>, key: &String) -> (r: Option<usize>)
    ensures
        r matches Some(j) ==> find_key(fields@, key@, fields@.len() as int) == Some(j as int),
        r is None ==> find_key(fields@, key@, fields@.len() as int) is None,
{
    let mut i: usize = 0;
    while i < fields.len()
        invariant
            i <= fields@.len(),
            find_key(fields@, key@, i as int) is None,
        decreases fields@.len() - i,
    {
        if fields[i].0 == *key {
            proof {
                lemma_find_key_stable(fields@, key@, i + 1, fields@.len() as int);
            }
            return Some(i);
        }
        i = i + 1;
    }
    None
}

pub proof fn lemma_find_key_stable(fields: Seq<(String, Value)>, key: Seq<char>, n: int, m: int)
    requires
        0 <= n <= m,
        find_key(fields, key, n) is Some,
    ensures
        find_key(fields, key, m) == find_key(fields, key, n),
    decreases m - n,
{
    if n < m {
        lemma_find_key_stable(fields, key, n, m - 1);
    }
}

impl Value {
    /// An empty row.
    pub fn new_row() -> (r: Value)
        ensures
            r is Row && r->Row_0@.len() == 0,
    {
        Value::Row(Vec::new())
    }

    /// The field names of a row, in order; none for any other value.
    pub fn column_names(&self) -> (r: Vec<String>)
        ensures
            r@.map_values(|s: String| s@) == names_of(*self),
    {
        let mut out: Vec<String> = Vec::new();
        match self {
            Value::Row(fields) => {
                let mut i: usize = 0;
                while i < fields.len()
                    invariant
                        i <= fields@.len(),
                        out@.len() == i,
                        out@.map_values(|s: String| s@) == fields@.take(i as int).map_values(
                            |p: (String, Value)| p.0@,
                        ),
                    decreases fields@.len() - i,
                {
                    let ghost prev = out@;
                    out.push(fields[i].0.clone());
                    proof {
                        assert(out@.drop_last() == prev);
                        assert(fields@.take(i + 1).drop_last() =~= fields@.take(i as int));
                        assert forall|k: int| 0 <= k < i + 1 implies out@[k]@ == fields@.take(i + 1)[k].0@ by {
                            if k < i {
                                assert(out@[k] == prev[k]);
                                assert(prev.map_values(|s: String| s@)[k] == fields@.take(i as int).map_values(
                                    |p: (String, Value)| p.0@)[k]);
                            }
                        }
                        assert(out@.map_values(|s: String| s@) =~= fields@.take(i + 1).map_values(
                            |p: (String, Value)| p.0@,
                        ));
                    }
                    i = i + 1;
                }
                proof {
                    assert(fields@.take(i as int) =~= fields@);
                }
            },
            _ => {
                assert(out@.map_values(|s: String| s@) =~= Seq::empty());
            },
        }
        out
    }

    /// Whether two values have the same field names in the same order.
    pub fn same_columns(&self, other: &Value) -> (r: bool)
        ensures
            r == (names_of(*self) == names_of(*other)),
    {
        let a = self.column_names();
        let b = other.column_names();
        proof {
            assert(names_of(*self).len() == a@.len());
            assert(names_of(*other).len() == b@.len());
        }
        if a.len() != b.len() {
            proof {
                assert(a@.map_values(|s: String| s@).len() != b@.map_values(|s: String| s@).len());
            }
            return false;
        }
        let mut i: usize = 0;
        while i < a.len()
            invariant
                i <= a@.len() == b@.len(),
                a@.map_values(|s: String| s@) == names_of(*self),
                b@.map_values(|s: String| s@) == names_of(*other),
                forall|j: int| 0 <= j < i ==> a@[j]@ == b@[j]@,
            decreases a@.len() - i,
        {
            if a[i] != b[i] {
                proof {
                    assert(names_of(*self)[i as int] == a@[i as int]@);
                    assert(names_of(*other)[i as int] == b@[i as int]@);
                    assert(a@.map_values(|s: String| s@)[i as int] != b@.map_values(|s: String| s@)[i as int]);
                }
                return false;
            }
            i = i + 1;
        }
        proof {
            assert(a@.map_values(|s: String| s@) =~= b@.map_values(|s: String| s@));
        }
        true
    }

    /// Sets field `key` of a row to `v`: a present field keeps its place,
    /// a new one goes last.
    pub fn insert_field(&mut self, key: String, v: Value)
        requires
            *old(self) is Row,
        ensures
            *final(self) is Row,
            match find_key((*old(self))->Row_0@, key@, (*old(self))->Row_0@.len() as int) {
                Some(j) => (*final(self))->Row_0@.len() == (*old(self))->Row_0@.len()
                    && (*final(self))->Row_0@[j].1 == v
                    && names_of(*final(self)) == names_of(*old(self))
                    && forall|i: int| 0 <= i < (*old(self))->Row_0@.len() && i != j
                        ==> (*final(self))->Row_0@[i] == (*old(self))->Row_0@[i],
                None => (*final(self))->Row_0@.len() == (*old(self))->Row_0@.len() + 1
                    && (*final(self))->Row_0@.last().0@ == key@
                    && (*final(self))->Row_0@.last().1 == v
                    && (*final(self))->Row_0@.drop_last() == (*old(self))->Row_0@,
            },
            unique_names(*old(self)) ==> unique_names(*final(self)),
    {
        match self {
            Value::Row(fields) => {
                let found = find_field(fields, &key);
                proof {
                    lemma_find_key_bounds(fields@, key@, fields@.len() as int);
                }
                match found {
                    Some(j) => {
                        fields[j] = (key, v);
                        proof {
                            assert(names_of(*self) =~= names_of(*old(self)));
                        }
                    },
                    None => {
                        fields.push((key, v));
                        proof {
                            assert(fields@.drop_last() =~= (*old(self))->Row_0@);
                            let nn = names_of(*self);
                            let on = names_of(*old(self));
                            assert(nn.drop_last() =~= on);
                            assert(nn.last() == key@);
                            assert forall|a: int, b: int| 0 <= a < b < nn.len() && unique_names(*old(self))
                                implies nn[a] != nn[b] by {
                                if b == nn.len() - 1 {
                                    assert(nn[a] == on[a]);
                                    assert(on[a] == (*old(self))->Row_0@[a].0@);
                                } else {
                                    assert(nn[a] == on[a]);
                                    assert(nn[b] == on[b]);
                                }
                            }
                        }
                    },
                }
            },
            _ => {},
        }
    }
}

} // verus!
