use vstd::prelude::*;
use vstd::string::StrSliceExecFns;
use vstd::string::StringExecFns;
use core::cmp::Ordering;

verus! {

broadcast use vstd::std_specs::vec::group_vec_axioms;

/// A JSON-like document value: the medium in which stored fields are
/// filtered and sorted.
///
/// Numbers are integers. An object is a map from names to values: it keeps
/// its entries in the order given, a field is looked up by its entry of that
/// name, and two objects are equal when they hold the same names with equal
/// values, in whatever order. A well-formed value (`value_wf`) has no name
/// twice in any of its objects.
#[derive(Debug)]
pub enum Value {
    /// The null value.
    Null,
    /// A boolean.
    Bool(bool),
    /// A number.
    Number(i64),
    /// A text.
    Str(String),
    /// A list of values.
    Array(Vec<Value>),
    /// Named fields.
    Object(Vec<(String, Value)>),
}

/// Structural equality of two values: same kind, same contents; arrays hold
/// equal elements in the same order, and objects of the same size hold, for
/// each name of the first, an equal value under that name in the second.
/// Kinds never coerce into one another (`18` is not `"18"`).
pub open spec fn value_eq(a: Value, b: Value) -> bool
    decreases a,
{
    match a {
        Value::Null => b is Null,
        Value::Bool(x) => b matches Value::Bool(y) && x == y,
        Value::Number(x) => b matches Value::Number(y) && x == y,
        Value::Str(x) => b matches Value::Str(y) && x@ == y@,
        Value::Array(xs) => match b {
            Value::Array(ys) => xs@.len() == ys@.len() && forall|i: int|
                #![trigger xs@[i]]
                0 <= i < xs@.len() ==> value_eq(xs@[i], ys@[i]),
            _ => false,
        },
        Value::Object(xs) => match b {
            Value::Object(ys) => xs@.len() == ys@.len() && forall|i: int|
                #![trigger xs@[i]]
                0 <= i < xs@.len() ==> (lookup(ys@, xs@[i].0@) matches Some(w) && value_eq(
                    xs@[i].1,
                    w,
                )),
            _ => false,
        },
    }
}

/// Whether no name occurs twice among `entries`.
pub open spec fn names_unique(entries: Seq<(String, Value)>) -> bool {
    forall|i: int, j: int|
        0 <= i < entries.len() && 0 <= j < entries.len() && i != j ==> #[trigger] entries[i].0@
            != #[trigger] entries[j].0@
}

/// Whether no object inside `v` holds a name twice.
pub open spec fn value_wf(v: Value) -> bool
    decreases v,
{
    match v {
        Value::Array(xs) => forall|i: int|
            #![trigger xs@[i]]
            0 <= i < xs@.len() ==> value_wf(xs@[i]),
        Value::Object(xs) => names_unique(xs@) && forall|i: int|
            #![trigger xs@[i]]
            0 <= i < xs@.len() ==> value_wf(xs@[i].1),
        _ => true,
    }
}

/// The value of the first entry named `name` among `entries`, if any.
pub open spec fn lookup(entries: Seq<(String, Value)>, name: Seq<char>) -> Option<Value>
    decreases entries.len(),
{
    if entries.len() == 0 {
        None
    } else if entries[0].0@ == name {
        Some(entries[0].1)
    } else {
        lookup(entries.drop_first(), name)
    }
}

/// The field `name` of a document; a document that is not an object has no
/// fields.
pub open spec fn field_of(doc: Value, name: Seq<char>) -> Option<Value> {
    match doc {
        Value::Object(entries) => lookup(entries@, name),
        _ => None,
    }
}

/// The number that a value stands for, if it is one.
pub open spec fn number_of(v: Value) -> Option<int> {
    match v {
        Value::Number(n) => Some(n as int),
        _ => None,
    }
}

/// The ordering of two integers.
pub open spec fn int_order(a: int, b: int) -> Ordering {
    if a < b {
        Ordering::Less
    } else if a > b {
        Ordering::Greater
    } else {
        Ordering::Equal
    }
}

/// Lexicographic ordering of two texts by code point, a proper prefix first.
pub open spec fn text_order(a: Seq<char>, b: Seq<char>) -> Ordering
    decreases a.len(),
{
    if a.len() == 0 && b.len() == 0 {
        Ordering::Equal
    } else if a.len() == 0 {
        Ordering::Less
    } else if b.len() == 0 {
        Ordering::Greater
    } else if (a[0] as u32) < (b[0] as u32) {
        Ordering::Less
    } else if (a[0] as u32) > (b[0] as u32) {
        Ordering::Greater
    } else {
        text_order(a.drop_first(), b.drop_first())
    }
}

/// The ordering of two booleans, `false` first.
pub open spec fn bool_order(a: bool, b: bool) -> Ordering {
    if a == b {
        Ordering::Equal
    } else if !a {
        Ordering::Less
    } else {
        Ordering::Greater
    }
}

/// The sort order of two field values, either of which may be absent.
///
/// An absent value comes before a present one. Two numbers compare as
/// numbers, two texts lexicographically, two booleans with `false` first;
/// any other pair counts as equal.
pub open spec fn sort_order(a: Option<Value>, b: Option<Value>) -> Ordering {
    match (a, b) {
        (None, None) => Ordering::Equal,
        (None, Some(_)) => Ordering::Less,
        (Some(_), None) => Ordering::Greater,
        (Some(x), Some(y)) => match (x, y) {
            (Value::Number(m), Value::Number(n)) => int_order(m as int, n as int),
            (Value::Str(s), Value::Str(t)) => text_order(s@, t@),
            (Value::Bool(p), Value::Bool(q)) => bool_order(p, q),
            _ => Ordering::Equal,
        },
    }
}

/// Whether `a` and `b` are structurally equal.
pub fn values_equal(a: &Value, b: &Value) -> (r: bool)
    ensures
        r == value_eq(*a, *b),
    decreases a,
{
    match a {
        Value::Null => match b {
            Value::Null => true,
            _ => false,
        },
        Value::Bool(x) => match b {
            Value::Bool(y) => *x == *y,
            _ => false,
        },
        Value::Number(x) => match b {
            Value::Number(y) => *x == *y,
            _ => false,
        },
        Value::Str(x) => match b {
            Value::Str(y) => *x == *y,
            _ => false,
        },
        Value::Array(xs) => match b {
            Value::Array(ys) => {
                if xs.len() != ys.len() {
                    return false;
                }
                let mut i: usize = 0;
                while i < xs.len()
                    invariant
                        *a == Value::Array(*xs),
                        *b == Value::Array(*ys),
                        xs@.len() == ys@.len(),
                        i <= xs@.len(),
                        forall|j: int| #![trigger xs@[j]] 0 <= j < i ==> value_eq(xs@[j], ys@[j]),
                    decreases xs@.len() - i,
                {
                    proof {
                        let ghost av = *a;
                        assert(decreases_to!(av => av->Array_0));
                        assert(decreases_to!(av->Array_0 => av->Array_0[i as int]));
                    }
                    if !values_equal(&xs[i], &ys[i]) {
                        assert(!value_eq(xs@[i as int], ys@[i as int]));
                        return false;
                    }
                    i = i + 1;
                }
                true
            },
            _ => false,
        },
        Value::Object(xs) => match b {
            Value::Object(ys) => {
                if xs.len() != ys.len() {
                    return false;
                }
                let mut i: usize = 0;
                while i < xs.len()
                    invariant
                        *a == Value::Object(*xs),
                        *b == Value::Object(*ys),
                        xs@.len() == ys@.len(),
                        i <= xs@.len(),
                        forall|j: int|
                            #![trigger xs@[j]]
                            0 <= j < i ==> (lookup(ys@, xs@[j].0@) matches Some(w) && value_eq(
                                xs@[j].1,
                                w,
                            )),
                    decreases xs@.len() - i,
                {
                    proof {
                        let ghost av = *a;
                        assert(decreases_to!(av => av->Object_0));
                        assert(decreases_to!(av->Object_0 => av->Object_0[i as int]));
                        assert(decreases_to!(av->Object_0[i as int] => av->Object_0[i as int].1));
                    }
                    match find_entry(ys, &xs[i].0) {
                        None => {
                            return false;
                        },
                        Some(w) => {
                            if !values_equal(&xs[i].1, w) {
                                return false;
                            }
                        },
                    }
                    i = i + 1;
                }
                true
            },
            _ => false,
        },
    }
}

/// The value that an optional reference points to.
pub open spec fn owned(o: Option<&Value>) -> Option<Value> {
    match o {
        Some(v) => Some(*v),
        None => None,
    }
}

/// The value of the first entry named `name` among `entries`, if any.
pub fn find_entry<'a>(entries: &'a Vec<(String, Value)>, name: &String) -> (r: Option<&'a Value>)
    ensures
        owned(r) == lookup(entries@, name@),
{
    let mut i: usize = 0;
    assert(entries@.skip(0) =~= entries@);
    while i < entries.len()
        invariant
            i <= entries@.len(),
            lookup(entries@, name@) == lookup(entries@.skip(i as int), name@),
        decreases entries@.len() - i,
    {
        proof {
            assert(entries@.skip(i + 1) =~= entries@.skip(i as int).drop_first());
        }
        if entries[i].0 == *name {
            return Some(&entries[i].1);
        }
        i = i + 1;
    }
    None
}

/// The field `name` of a document, if the document is an object that has
/// one.
pub fn get_field<'a>(doc: &'a Value, name: &String) -> (r: Option<&'a Value>)
    ensures
        owned(r) == field_of(*doc, name@),
{
    match doc {
        Value::Object(entries) => find_entry(entries, name),
        _ => None,
    }
}

/// Orders two texts lexicographically by code point.
pub fn compare_text(a: &str, b: &str) -> (r: Ordering)
    ensures
        r == text_order(a@, b@),
{
    let n = a.unicode_len();
    let m = b.unicode_len();
    assert(a@.skip(0) =~= a@);
    assert(b@.skip(0) =~= b@);
    let mut i: usize = 0;
    while i < n && i < m
        invariant
            n == a@.len(),
            m == b@.len(),
            i <= n,
            i <= m,
            text_order(a@, b@) == text_order(a@.skip(i as int), b@.skip(i as int)),
        decreases n - i,
    {
        let x = a.get_char(i);
        let y = b.get_char(i);
        proof {
            assert(a@.skip(i as int)[0] == x);
            assert(b@.skip(i as int)[0] == y);
            assert(a@.skip(i + 1) =~= a@.skip(i as int).drop_first());
            assert(b@.skip(i + 1) =~= b@.skip(i as int).drop_first());
        }
        if (x as u32) < (y as u32) {
            return Ordering::Less;
        }
        if (x as u32) > (y as u32) {
            return Ordering::Greater;
        }
        i = i + 1;
    }
    if i == n && i == m {
        Ordering::Equal
    } else if i == n {
        Ordering::Less
    } else {
        Ordering::Greater
    }
}

/// Orders two field values for sorting, as `sort_order` describes.
pub fn compare_values(a: Option<&Value>, b: Option<&Value>) -> (r: Ordering)
    ensures
        r == sort_order(owned(a), owned(b)),
{
    match a {
        None => match b {
            None => Ordering::Equal,
            Some(_) => Ordering::Less,
        },
        Some(x) => match b {
            None => Ordering::Greater,
            Some(y) => match x {
                Value::Number(m) => match y {
                    Value::Number(n) => {
                        if *m < *n {
                            Ordering::Less
                        } else if *m > *n {
                            Ordering::Greater
                        } else {
                            Ordering::Equal
                        }
                    },
                    _ => Ordering::Equal,
                },
                Value::Str(s) => match y {
                    Value::Str(t) => compare_text(s.as_str(), t.as_str()),
                    _ => Ordering::Equal,
                },
                Value::Bool(p) => match y {
                    Value::Bool(q) => {
                        if *p == *q {
                            Ordering::Equal
                        } else if !*p {
                            Ordering::Less
                        } else {
                            Ordering::Greater
                        }
                    },
                    _ => Ordering::Equal,
                },
                _ => Ordering::Equal,
            },
        },
    }
}

/// Whether two values are of a kind that the sort orders among itself:
/// both numbers, both texts or both booleans.
pub open spec fn same_kind(x: Value, y: Value) -> bool {
    ||| (x is Number && y is Number)
    ||| (x is Str && y is Str)
    ||| (x is Bool && y is Bool)
}

/// Whether two sort keys are ordered by their contents: either is absent,
/// or both are of one kind.
pub open spec fn keys_comparable(x: Option<Value>, y: Option<Value>) -> bool {
    x is None || y is None || same_kind(x->Some_0, y->Some_0)
}

proof fn lemma_text_order_antisymmetric(a: Seq<char>, b: Seq<char>)
    ensures
        text_order(a, b) == Ordering::Less <==> text_order(b, a) == Ordering::Greater,
    decreases a.len(),
{
    if a.len() > 0 && b.len() > 0 && (a[0] as u32) == (b[0] as u32) {
        lemma_text_order_antisymmetric(a.drop_first(), b.drop_first());
    }
}

proof fn lemma_text_order_transitive(a: Seq<char>, b: Seq<char>, c: Seq<char>)
    requires
        text_order(a, b) != Ordering::Greater,
        text_order(b, c) != Ordering::Greater,
    ensures
        text_order(a, c) != Ordering::Greater,
    decreases a.len(),
{
    if a.len() > 0 && b.len() > 0 && c.len() > 0 && (a[0] as u32) == (b[0] as u32) && (b[0]
        as u32) == (c[0] as u32) {
        lemma_text_order_transitive(a.drop_first(), b.drop_first(), c.drop_first());
    }
}

/// The sort order is antisymmetric: `x` orders before `y` exactly when `y`
/// orders after `x`.
pub proof fn lemma_sort_order_antisymmetric(x: Option<Value>, y: Option<Value>)
    ensures
        sort_order(x, y) == Ordering::Less <==> sort_order(y, x) == Ordering::Greater,
{
    if let (Some(Value::Str(s)), Some(Value::Str(t))) = (x, y) {
        lemma_text_order_antisymmetric(s@, t@);
        lemma_text_order_antisymmetric(t@, s@);
    }
}

/// Among keys that are pairwise comparable the sort order is transitive.
pub proof fn lemma_sort_order_transitive(x: Option<Value>, y: Option<Value>, z: Option<Value>)
    requires
        keys_comparable(x, y),
        keys_comparable(y, z),
        keys_comparable(x, z),
        sort_order(x, y) != Ordering::Greater,
        sort_order(y, z) != Ordering::Greater,
    ensures
        sort_order(x, z) != Ordering::Greater,
{
    if let (Some(Value::Str(s)), Some(Value::Str(t)), Some(Value::Str(u))) = (x, y, z) {
        lemma_text_order_transitive(s@, t@, u@);
    }
}

proof fn lemma_lookup_unique(entries: Seq<(String, Value)>, i: int)
    requires
        names_unique(entries),
        0 <= i < entries.len(),
    ensures
        lookup(entries, entries[i].0@) == Some(entries[i].1),
    decreases entries.len(),
{
    if i > 0 {
        let rest = entries.drop_first();
        assert(entries[0].0@ != entries[i].0@);
        assert(rest[i - 1] == entries[i]);
        assert(names_unique(rest)) by {
            assert forall|m: int, n: int|
                0 <= m < rest.len() && 0 <= n < rest.len() && m != n implies #[trigger] rest[m].0@
                != #[trigger] rest[n].0@ by {
                assert(rest[m] == entries[m + 1] && rest[n] == entries[n + 1]);
            }
        }
        lemma_lookup_unique(rest, i - 1);
    }
}

/// Every well-formed value is structurally equal to itself.
pub proof fn lemma_value_eq_reflexive(v: Value)
    requires
        value_wf(v),
    ensures
        value_eq(v, v),
    decreases v,
{
    match v {
        Value::Array(xs) => {
            assert forall|i: int| #![trigger xs@[i]] 0 <= i < xs@.len() implies value_eq(xs@[i], xs@[i]) by {
                assert(decreases_to!(v => xs));
                assert(decreases_to!(xs => xs[i]));
                lemma_value_eq_reflexive(xs@[i]);
            }
        },
        Value::Object(xs) => {
            assert forall|i: int| #![trigger xs@[i]] 0 <= i < xs@.len() implies (lookup(xs@, xs@[i].0@) matches Some(
                w,
            ) && value_eq(xs@[i].1, w)) by {
                assert(decreases_to!(v => xs));
                assert(decreases_to!(xs => xs[i]));
                assert(decreases_to!(xs[i] => xs[i].1));
                lemma_lookup_unique(xs@, i);
                lemma_value_eq_reflexive(xs@[i].1);
            }
        },
        _ => {},
    }
}

} // verus!
