//! The tree of values: scalars, flat arrays, and objects that hold values
//! under keys.

use crate::array::{is_bracketed, parse_array_chars, spec_parse_array, FlatArray};
use crate::error::ValueError;
use crate::literal::{parse_literal_chars, spec_parse_literal, Decimal, Literal, LiteralView, Number};
use crate::order::{
    compare_chars, lemma_text_order_total, lemma_text_order_transitive, path_view, text_lt,
    Relation,
};
use crate::text::{to_chars, trim, trim_slice};
use vstd::prelude::*;

verus! {

/// A value as a mathematical tree.
pub enum ValueView {
    Literal(LiteralView),
    Array(Seq<LiteralView>),
    Object(Map<Seq<char>, ValueView>),
}

/// The entries of an object: each key once, in the order of the keys.
#[derive(Debug, PartialEq, Eq)]
pub struct ObjectMap {
    entries: Vec<(String, Value)>,
}

/// A value of the tree. An array holds scalars only; an object holds values
/// of any kind.
#[derive(Debug, PartialEq, Eq)]
pub enum Value {
    Literal(Literal),
    Array(FlatArray),
    Object(ObjectMap),
}

/// Whether each key of `entries` comes before the keys behind it.
pub open spec fn keys_increasing(entries: Seq<(String, Value)>) -> bool {
    forall|i: int, j: int|
        #![trigger entries[i], entries[j]]
        0 <= i < j < entries.len() ==> text_lt(entries[i].0@, entries[j].0@)
}

/// Whether every key of `entries` comes before `bound`.
pub open spec fn keys_below(entries: Seq<(String, Value)>, bound: Seq<char>) -> bool {
    forall|i: int| 0 <= i < entries.len() ==> text_lt((#[trigger] entries[i]).0@, bound)
}

/// The object that a sequence of entries writes: each entry binds its key,
/// a later one over an earlier one.
pub open spec fn entries_view(entries: Seq<(String, Value)>) -> Map<Seq<char>, ValueView>
    decreases entries, 0int,
{
    if entries.len() == 0 {
        Map::empty()
    } else {
        entries_view(entries.drop_last()).insert(entries.last().0@, value_view(entries.last().1))
    }
}

/// The tree that a value stands for.
pub open spec fn value_view(v: Value) -> ValueView
    decreases v, 1int,
{
    match v {
        Value::Literal(l) => ValueView::Literal(l@),
        Value::Array(a) => ValueView::Array(a@),
        Value::Object(o) => ValueView::Object(o.view()),
    }
}

impl View for ObjectMap {
    type V = Map<Seq<char>, ValueView>;

    closed spec fn view(&self) -> Map<Seq<char>, ValueView>
        decreases self, 2int,
    {
        entries_view(self.entries@)
    }
}

impl View for Value {
    type V = ValueView;

    open spec fn view(&self) -> ValueView {
        value_view(*self)
    }
}

/// Whether `entries` binds `key`.
pub open spec fn has_key(entries: Seq<(String, Value)>, key: Seq<char>) -> bool {
    exists|i: int| 0 <= i < entries.len() && (#[trigger] entries[i]).0@ == key
}

/// The value that `path` leads to.
pub open spec fn lookup(tree: Map<Seq<char>, ValueView>, path: Seq<Seq<char>>) -> Option<
    ValueView,
>
    decreases path.len(),
{
    if path.len() == 0 || !tree.dom().contains(path[0]) {
        None
    } else if path.len() == 1 {
        Some(tree[path[0]])
    } else {
        match tree[path[0]] {
            ValueView::Object(m) => lookup(m, path.drop_first()),
            _ => None,
        }
    }
}

/// The value that `path` leads to from `v`: `v` itself where the path has no
/// segment.
pub open spec fn value_at(v: ValueView, path: Seq<Seq<char>>) -> Option<ValueView> {
    if path.len() == 0 {
        Some(v)
    } else {
        match v {
            ValueView::Object(m) => lookup(m, path),
            _ => None,
        }
    }
}

/// What a text reads as: an array where it is bracketed, a scalar otherwise.
pub open spec fn spec_parse_value(raw: Seq<char>) -> Result<ValueView, ValueError> {
    let s = trim(raw);
    if s.len() == 0 {
        Err(ValueError::EmptyInput)
    } else if is_bracketed(s) {
        match spec_parse_array(s) {
            Ok(items) => Ok(ValueView::Array(items)),
            Err(e) => Err(ValueError::ArrayError(e)),
        }
    } else {
        match spec_parse_literal(s) {
            Ok(l) => Ok(ValueView::Literal(l)),
            Err(e) => Err(ValueError::LiteralError(e)),
        }
    }
}

/// The result of a parse, as mathematical values.
pub open spec fn value_result_view(r: Result<Value, ValueError>) -> Result<ValueView, ValueError> {
    match r {
        Ok(v) => Ok(v@),
        Err(e) => Err(e),
    }
}

/// Entries with increasing keys write the object that binds each key to its
/// own value and binds nothing else.
pub proof fn lemma_entries_view(entries: Seq<(String, Value)>)
    requires
        keys_increasing(entries),
    ensures
        forall|i: int|
            0 <= i < entries.len() ==> entries_view(entries).dom().contains(
                (#[trigger] entries[i]).0@,
            ) && entries_view(entries)[entries[i].0@] == entries[i].1@,
        forall|k: Seq<char>| #[trigger]
            entries_view(entries).dom().contains(k) ==> has_key(entries, k),
        entries_view(entries).dom().finite(),
        entries_view(entries).dom().len() == entries.len(),
    decreases entries.len(),
{
    if entries.len() > 0 {
        let init = entries.drop_last();
        let last = entries.last();
        assert forall|i: int, j: int| 0 <= i < j < init.len() implies text_lt(
            (#[trigger] init[i]).0@,
            (#[trigger] init[j]).0@,
        ) by {
            assert(init[i] == entries[i] && init[j] == entries[j]);
        }
        lemma_entries_view(init);
        assert forall|i: int| 0 <= i < entries.len() implies entries_view(entries).dom().contains(
            (#[trigger] entries[i]).0@,
        ) && entries_view(entries)[entries[i].0@] == entries[i].1@ by {
            if i < init.len() {
                assert(init[i] == entries[i]);
                assert(text_lt(entries[i].0@, entries[entries.len() - 1].0@));
                lemma_text_order_total(entries[i].0@, last.0@);
            }
        }
        assert forall|k: Seq<char>| entries_view(entries).dom().contains(k) implies has_key(
            entries,
            k,
        ) by {
            if k == last.0@ {
                assert(entries[entries.len() - 1].0@ == k);
            } else {
                assert(has_key(init, k));
                let i = choose|i: int| 0 <= i < init.len() && (#[trigger] init[i]).0@ == k;
                assert(entries[i].0@ == k);
            }
        }
        if entries_view(init).dom().contains(last.0@) {
            assert(has_key(init, last.0@));
            let i = choose|i: int| 0 <= i < init.len() && (#[trigger] init[i]).0@ == last.0@;
            assert(init[i] == entries[i]);
            assert(text_lt(entries[i].0@, entries[entries.len() - 1].0@));
            lemma_text_order_total(entries[i].0@, last.0@);
        }
    }
}

/// Entries with increasing keys write the one object that binds each key to
/// its own value and binds nothing else.
pub proof fn lemma_entries_view_is(entries: Seq<(String, Value)>, m: Map<Seq<char>, ValueView>)
    requires
        keys_increasing(entries),
        forall|i: int|
            0 <= i < entries.len() ==> m.dom().contains((#[trigger] entries[i]).0@)
                && m[entries[i].0@] == entries[i].1@,
        forall|k: Seq<char>| #[trigger] m.dom().contains(k) ==> has_key(entries, k),
    ensures
        entries_view(entries) == m,
{
    lemma_entries_view(entries);
    let e = entries_view(entries);
    assert forall|k: Seq<char>| e.dom().contains(k) <==> m.dom().contains(k) by {
        if e.dom().contains(k) {
            let i = choose|i: int| 0 <= i < entries.len() && (#[trigger] entries[i]).0@ == k;
        }
        if m.dom().contains(k) {
            let i = choose|i: int| 0 <= i < entries.len() && (#[trigger] entries[i]).0@ == k;
        }
    }
    assert forall|k: Seq<char>| e.dom().contains(k) implies e[k] == m[k] by {
        let i = choose|i: int| 0 <= i < entries.len() && (#[trigger] entries[i]).0@ == k;
    }
    assert(e =~= m);
}

/// Entries with increasing keys are the only such entries of their object:
/// two objects that bind the same keys to the same values hold them in the
/// same order, whatever the order in which they were filled.
pub proof fn lemma_entries_are_canonical(a: Seq<(String, Value)>, b: Seq<(String, Value)>)
    requires
        keys_increasing(a),
        keys_increasing(b),
        entries_view(a) == entries_view(b),
    ensures
        a.len() == b.len(),
        forall|i: int|
            0 <= i < a.len() ==> (#[trigger] a[i]).0@ == b[i].0@ && a[i].1@ == b[i].1@,
    decreases a.len(),
{
    lemma_entries_view(a);
    lemma_entries_view(b);
    if a.len() > 0 && b.len() > 0 {
        let la = a.len() - 1;
        let lb = b.len() - 1;
        let ka = a[la].0@;
        let kb = b[lb].0@;
        assert(entries_view(b).dom().contains(ka));
        assert(entries_view(a).dom().contains(kb));
        let j = choose|j: int| 0 <= j < b.len() && (#[trigger] b[j]).0@ == ka;
        let i = choose|i: int| 0 <= i < a.len() && (#[trigger] a[i]).0@ == kb;
        assert(ka == kb) by {
            lemma_text_order_total(ka, kb);
            if j < lb {
                assert(text_lt(b[j].0@, b[lb].0@));
            }
            if i < la {
                assert(text_lt(a[i].0@, a[la].0@));
            }
        }
        let a0 = a.drop_last();
        let b0 = b.drop_last();
        assert forall|x: int, y: int| 0 <= x < y < a0.len() implies text_lt(
            (#[trigger] a0[x]).0@,
            (#[trigger] a0[y]).0@,
        ) by {
            assert(a0[x] == a[x] && a0[y] == a[y]);
        }
        assert forall|x: int, y: int| 0 <= x < y < b0.len() implies text_lt(
            (#[trigger] b0[x]).0@,
            (#[trigger] b0[y]).0@,
        ) by {
            assert(b0[x] == b[x] && b0[y] == b[y]);
        }
        lemma_entries_view(a0);
        lemma_entries_view(b0);
        assert(!entries_view(a0).dom().contains(ka)) by {
            if entries_view(a0).dom().contains(ka) {
                let x = choose|x: int| 0 <= x < a0.len() && (#[trigger] a0[x]).0@ == ka;
                assert(a0[x] == a[x]);
                assert(text_lt(a[x].0@, a[la].0@));
                lemma_text_order_total(ka, ka);
            }
        }
        assert(!entries_view(b0).dom().contains(kb)) by {
            if entries_view(b0).dom().contains(kb) {
                let x = choose|x: int| 0 <= x < b0.len() && (#[trigger] b0[x]).0@ == kb;
                assert(b0[x] == b[x]);
                assert(text_lt(b[x].0@, b[lb].0@));
                lemma_text_order_total(kb, kb);
            }
        }
        assert(entries_view(a0) =~= entries_view(a).remove(ka));
        assert(entries_view(b0) =~= entries_view(b).remove(kb));
        lemma_entries_are_canonical(a0, b0);
        assert forall|i: int| 0 <= i < a.len() implies (#[trigger] a[i]).0@ == b[i].0@
            && a[i].1@ == b[i].1@ by {
            if i < la {
                assert(a0[i] == a[i] && b0[i] == b[i]);
            } else {
                assert(entries_view(a)[ka] == a[la].1@);
                assert(entries_view(b)[kb] == b[lb].1@);
            }
        }
    } else if a.len() > 0 {
        assert(entries_view(a).dom().contains(a[0].0@));
    } else if b.len() > 0 {
        assert(entries_view(b).dom().contains(b[0].0@));
    }
}

impl ObjectMap {
    #[verifier::type_invariant]
    spec fn inv(self) -> bool {
        keys_increasing(self.entries@)
    }

    /// The object without entries.
    pub fn new() -> (o: Self)
        ensures
            o@ == Map::<Seq<char>, ValueView>::empty(),
    {
        ObjectMap { entries: Vec::new() }
    }

    /// The object that `entries` write.
    pub(crate) fn from_sorted(entries: Vec<(String, Value)>) -> (o: Self)
        requires
            keys_increasing(entries@),
        ensures
            o@ == entries_view(entries@),
    {
        ObjectMap { entries }
    }

    /// The entries, in the order of their keys.
    pub fn entries(&self) -> (entries: &Vec<(String, Value)>)
        ensures
            keys_increasing(entries@),
            entries_view(entries@) == self@,
    {
        proof {
            use_type_invariant(self);
        }
        &self.entries
    }

    /// How many keys the object binds.
    pub fn len(&self) -> (n: usize)
        ensures
            self@.dom().finite(),
            n == self@.dom().len(),
    {
        proof {
            use_type_invariant(self);
            lemma_entries_view(self.entries@);
        }
        self.entries.len()
    }

    /// The value under `key`.
    pub fn get(&self, key: &str) -> (r: Option<&Value>)
        ensures
            match r {
                Some(v) => self@.dom().contains(key@) && self@[key@] == v@,
                None => !self@.dom().contains(key@),
            },
    {
        proof {
            use_type_invariant(self);
            lemma_entries_view(self.entries@);
        }
        let wanted = String::from_str(key);
        let mut i: usize = 0;
        while i < self.entries.len()
            invariant
                i <= self.entries@.len(),
                wanted@ == key@,
                keys_increasing(self.entries@),
                forall|j: int| 0 <= j < i ==> (#[trigger] self.entries@[j]).0@ != key@,
            decreases self.entries@.len() - i,
        {
            if self.entries[i].0 == wanted {
                proof {
                    lemma_entries_view(self.entries@);
                }
                return Some(&self.entries[i].1);
            }
            i += 1;
        }
        None
    }

    /// Binds `key` to `value`, and hands back what `key` was bound to before.
    pub fn insert(&mut self, key: String, value: Value) -> (r: Option<Value>)
        ensures
            final(self)@ == old(self)@.insert(key@, value@),
            match r {
                Some(v) => old(self)@.dom().contains(key@) && old(self)@[key@] == v@,
                None => !old(self)@.dom().contains(key@),
            },
    {
        proof {
            use_type_invariant(&*self);
            lemma_entries_view(self.entries@);
        }
        let mut entries: Vec<(String, Value)> = Vec::new();
        std::mem::swap(&mut entries, &mut self.entries);
        let ghost before = entries@;
        let ghost target = entries_view(before).insert(key@, value@);
        let wanted = to_chars(key.as_str());
        let n = entries.len();
        let mut i: usize = 0;
        let mut found = false;
        while i < n
            invariant_except_break
                !found,
            invariant
                i <= n == entries@.len(),
                entries@ == before,
                wanted@ == key@,
                keys_below(before.take(i as int), key@),
            ensures
                i <= n == entries@.len(),
                entries@ == before,
                keys_below(before.take(i as int), key@),
                found ==> i < n && before[i as int].0@ == key@,
                !found ==> (i < n ==> text_lt(key@, before[i as int].0@)),
            decreases n - i,
        {
            let held = to_chars(entries[i].0.as_str());
            match compare_chars(held.as_slice(), wanted.as_slice()) {
                Relation::Before => {
                    assert forall|j: int| 0 <= j < i + 1 implies text_lt(
                        (#[trigger] before.take(i + 1)[j]).0@,
                        key@,
                    ) by {
                        if j < i {
                            assert(before.take(i as int)[j] == before.take(i + 1)[j]);
                        }
                    }
                    i += 1;
                },
                Relation::Same => {
                    found = true;
                    break ;
                },
                Relation::After => {
                    break ;
                },
            }
        }
        let r = if found {
            let old_entry = entries.remove(i);
            Some(old_entry.1)
        } else {
            None
        };
        let ghost key_view = key@;
        let ghost value_view = value@;
        entries.insert(i, (key, value));
        proof {
            let after = entries@;
            let skip: int = if found {
                1
            } else {
                0
            };
            assert(after.len() == before.len() + 1 - skip);
            assert forall|j: int| 0 <= j < after.len() implies #[trigger] after[j] == (if j < i {
                before[j]
            } else if j == i {
                after[i as int]
            } else {
                before[j - 1 + skip]
            }) by {}
            assert(after[i as int].0@ == key_view && after[i as int].1@ == value_view);
            assert forall|j: int| 0 <= j < i implies text_lt((#[trigger] before[j]).0@, key_view) by {
                assert(before.take(i as int)[j] == before[j]);
            }
            assert forall|j: int| i + skip <= j < before.len() implies text_lt(
                key_view,
                (#[trigger] before[j]).0@,
            ) by {
                if j > i {
                    assert(text_lt(before[i as int].0@, before[j].0@));
                    lemma_text_order_transitive(key_view, before[i as int].0@, before[j].0@);
                }
            }
            assert forall|a: int, b: int| 0 <= a < b < after.len() implies text_lt(
                (#[trigger] after[a]).0@,
                (#[trigger] after[b]).0@,
            ) by {
                let a0 = if a < i {
                    a
                } else {
                    a - 1 + skip
                };
                let b0 = if b < i {
                    b
                } else {
                    b - 1 + skip
                };
                if a != i && b != i {
                    assert(after[a] == before[a0] && after[b] == before[b0]);
                    assert(text_lt(before[a0].0@, before[b0].0@));
                } else if a == i {
                    assert(after[b] == before[b0]);
                } else {
                    assert(after[a] == before[a0]);
                }
            }
            assert forall|j: int| 0 <= j < after.len() implies target.dom().contains(
                (#[trigger] after[j]).0@,
            ) && target[after[j].0@] == after[j].1@ by {
                if j != i {
                    let j0 = if j < i {
                        j
                    } else {
                        j - 1 + skip
                    };
                    assert(after[j] == before[j0]);
                    lemma_text_order_total(before[j0].0@, key_view);
                }
            }
            assert forall|k: Seq<char>| target.dom().contains(k) implies has_key(after, k) by {
                if k == key_view {
                    assert(after[i as int].0@ == k);
                } else {
                    let j0 = choose|j: int| 0 <= j < before.len() && (#[trigger] before[j]).0@ == k;
                    let j = if j0 < i {
                        j0
                    } else {
                        j0 + 1 - skip
                    };
                    assert(after[j] == before[j0]);
                }
            }
            lemma_entries_view_is(after, target);
            if !found {
                if entries_view(before).dom().contains(key_view) {
                    let j = choose|j: int|
                        0 <= j < before.len() && (#[trigger] before[j]).0@ == key_view;
                    lemma_text_order_total(before[j].0@, key_view);
                }
            }
        }
        self.entries = entries;
        r
    }
}

impl Value {
    /// The value of an integer.
    pub fn integer(v: i64) -> (r: Value)
        ensures
            r@ == ValueView::Literal(LiteralView::Integer(v as int)),
    {
        Value::Literal(Literal::integer(v))
    }

    /// The value of a decimal.
    pub fn double(v: Decimal) -> (r: Value)
        ensures
            r@ == ValueView::Literal(LiteralView::Double(v@)),
    {
        Value::Literal(Literal::double(v))
    }

    /// The value of a string.
    pub fn string(s: &str) -> (r: Value)
        ensures
            r@ == ValueView::Literal(LiteralView::String(s@)),
    {
        Value::Literal(Literal::string(s))
    }

    /// The value of a boolean.
    pub fn bool(v: bool) -> (r: Value)
        ensures
            r@ == ValueView::Literal(LiteralView::Bool(v)),
    {
        Value::Literal(Literal::bool(v))
    }

    /// The array without elements.
    pub fn empty_list() -> (r: Value)
        ensures
            r@ == ValueView::Array(Seq::empty()),
    {
        Value::Array(FlatArray::default())
    }

    /// The object without entries.
    pub fn empty_object() -> (r: Value)
        ensures
            r@ == ValueView::Object(Map::empty()),
    {
        Value::Object(ObjectMap::new())
    }

    /// The text, where the value is a string.
    pub fn as_str(&self) -> (r: Option<&str>)
        ensures
            match r {
                Some(s) => self@ == ValueView::Literal(LiteralView::String(s@)),
                None => !(self@ matches ValueView::Literal(LiteralView::String(_))),
            },
    {
        match self {
            Value::Literal(Literal::String(s)) => Some(s.as_str()),
            _ => None,
        }
    }

    /// The elements, where the value is an array.
    pub fn as_vec(&self) -> (r: Option<&Vec<Literal>>)
        ensures
            match r {
                Some(items) => self@ == ValueView::Array(items@.map_values(|l: Literal| l@)),
                None => !(self@ is Array),
            },
    {
        match self {
            Value::Array(a) => Some(a.items()),
            _ => None,
        }
    }

    /// The decimal, where the value is one.
    pub fn as_double(&self) -> (r: Option<&Decimal>)
        ensures
            match r {
                Some(d) => self@ == ValueView::Literal(LiteralView::Double(d@)),
                None => !(self@ matches ValueView::Literal(LiteralView::Double(_))),
            },
    {
        match self {
            Value::Literal(Literal::Number(Number::Double(d))) => Some(d),
            _ => None,
        }
    }

    /// The integer, where the value is one.
    pub fn as_int(&self) -> (r: Option<i64>)
        ensures
            match r {
                Some(i) => self@ == ValueView::Literal(LiteralView::Integer(i as int)),
                None => !(self@ matches ValueView::Literal(LiteralView::Integer(_))),
            },
    {
        match self {
            Value::Literal(Literal::Number(Number::Integer(i))) => Some(*i),
            _ => None,
        }
    }

    /// The entries, where the value is an object.
    pub fn as_object(&self) -> (r: Option<&ObjectMap>)
        ensures
            match r {
                Some(o) => self@ == ValueView::Object(o@),
                None => !(self@ is Object),
            },
    {
        match self {
            Value::Object(o) => Some(o),
            _ => None,
        }
    }

    /// The value that `path` leads to, through objects.
    pub fn at(&self, path: &Vec<String>) -> (r: Option<&Value>)
        ensures
            match r {
                Some(v) => value_at(self@, path_view(path@)) == Some(v@),
                None => value_at(self@, path_view(path@)) is None,
            },
    {
        let ghost pv = path_view(path@);
        let mut current = self;
        let mut i: usize = 0;
        assert(pv.skip(0) =~= pv);
        while i < path.len()
            invariant
                i <= path.len(),
                pv == path_view(path@),
                value_at(self@, pv) == value_at(current@, pv.skip(i as int)),
            decreases path.len() - i,
        {
            let ghost rest = pv.skip(i as int);
            assert(rest[0] == path@[i as int]@);
            assert(rest.drop_first() =~= pv.skip(i + 1));
            match current {
                Value::Object(o) => match o.get(path[i].as_str()) {
                    Some(v) => {
                        current = v;
                    },
                    None => {
                        return None;
                    },
                },
                _ => {
                    return None;
                },
            }
            i += 1;
        }
        Some(current)
    }

    /// Binds `k` to `v` in an object and hands back what `k` was bound to
    /// before; leaves any other value as it is.
    pub fn insert(&mut self, k: String, v: Value) -> (r: Option<Value>)
        ensures
            match old(self)@ {
                ValueView::Object(m) => {
                    &&& final(self)@ == ValueView::Object(m.insert(k@, v@))
                    &&& match r {
                        Some(before) => m.dom().contains(k@) && m[k@] == before@,
                        None => !m.dom().contains(k@),
                    }
                },
                _ => final(self)@ == old(self)@ && r is None,
            },
    {
        match self {
            Value::Object(inner) => inner.insert(k, v),
            _ => None,
        }
    }

    /// Reads the value of a pair: an array where the text is bracketed, a
    /// scalar otherwise. No text reads as an object.
    pub fn parse(raw: &str) -> (r: Result<Value, ValueError>)
        ensures
            value_result_view(r) == spec_parse_value(raw@),
    {
        let chars = to_chars(raw);
        parse_value_chars(chars.as_slice())
    }
}

/// Reads the value of a pair from characters.
pub fn parse_value_chars(raw: &[char]) -> (r: Result<Value, ValueError>)
    ensures
        value_result_view(r) == spec_parse_value(raw@),
{
    let s = trim_slice(raw);
    let n = s.len();
    if n == 0 {
        Err(ValueError::EmptyInput)
    } else if n >= 2 && s[0] == '[' && s[n - 1] == ']' {
        match parse_array_chars(s) {
            Ok(a) => Ok(Value::Array(a)),
            Err(e) => Err(ValueError::ArrayError(e)),
        }
    } else {
        match parse_literal_chars(s) {
            Ok(l) => Ok(Value::Literal(l)),
            Err(e) => Err(ValueError::LiteralError(e)),
        }
    }
}

} // verus!
