use vstd::prelude::*;
use vstd::string::StringExecFns;
use core::cmp::Ordering;
use crate::text::{contains_text, occurs_in};
use crate::value::{
    compare_values, field_of, get_field, keys_comparable, lemma_sort_order_antisymmetric, value_wf,
    lemma_sort_order_transitive, number_of, owned, sort_order, value_eq, values_equal, Value,
};

verus! {

broadcast use vstd::std_specs::vec::group_vec_axioms;

/// A condition on one field of a document.
#[derive(Debug)]
pub enum Query {
    /// The field is present and equal to the value.
    Eq(Value),
    /// The field is absent or differs from the value.
    Ne(Value),
    /// The field and the value are numbers, the field the greater.
    Gt(Value),
    /// The field and the value are numbers, the field not the smaller.
    Gte(Value),
    /// The field and the value are numbers, the field the smaller.
    Lt(Value),
    /// The field and the value are numbers, the field not the greater.
    Lte(Value),
    /// The field is a text that contains this one.
    Contains(String),
    /// The field is present and equal to one of the values.
    In(Vec<Value>),
    /// The field is absent or equal to none of the values.
    NotIn(Vec<Value>),
}

/// The direction of a sort.
#[derive(Debug, Clone, Copy, PartialEq, Eq, Structural)]
pub enum SortOrder {
    /// Smallest first.
    Asc,
    /// Largest first.
    Desc,
}

/// Whether `x` equals one of `vs`.
pub open spec fn member(x: Value, vs: Seq<Value>) -> bool {
    exists|i: int| 0 <= i < vs.len() && value_eq(x, #[trigger] vs[i])
}

/// The two numbers, when the field value `v` (absent when `None`) and the
/// operand `e` are both numbers.
pub open spec fn numbers_of(v: Option<Value>, e: Value) -> Option<(int, int)> {
    match v {
        Some(x) => match (number_of(x), number_of(e)) {
            (Some(m), Some(n)) => Some((m, n)),
            _ => None,
        },
        None => None,
    }
}

/// Whether a field value `v`, absent when `None`, meets the condition `q`.
pub open spec fn filter_holds(q: Query, v: Option<Value>) -> bool {
    match q {
        Query::Eq(e) => v matches Some(x) && value_eq(x, e),
        Query::Ne(e) => !(v matches Some(x) && value_eq(x, e)),
        Query::Gt(e) => numbers_of(v, e) matches Some(p) && p.0 > p.1,
        Query::Gte(e) => numbers_of(v, e) matches Some(p) && p.0 >= p.1,
        Query::Lt(e) => numbers_of(v, e) matches Some(p) && p.0 < p.1,
        Query::Lte(e) => numbers_of(v, e) matches Some(p) && p.0 <= p.1,
        Query::Contains(s) => v matches Some(Value::Str(t)) && occurs_in(s@, t@),
        Query::In(vs) => v matches Some(x) && member(x, vs@),
        Query::NotIn(vs) => !(v matches Some(x) && member(x, vs@)),
    }
}

/// Whether a document meets every condition of `filters`.
pub open spec fn doc_matches(filters: Seq<(String, Query)>, doc: Value) -> bool {
    forall|k: int|
        #![trigger filters[k]]
        0 <= k < filters.len() ==> filter_holds(filters[k].1, field_of(doc, filters[k].0@))
}

/// The positions, in ascending order, of the fetched documents that meet
/// `filters`; a position that holds no document is never selected.
pub open spec fn selected(filters: Seq<(String, Query)>, docs: Seq<Option<Value>>) -> Seq<usize>
    decreases docs.len(),
{
    if docs.len() == 0 {
        Seq::empty()
    } else {
        let rest = selected(filters, docs.drop_last());
        if docs.last() matches Some(d) && doc_matches(filters, d) {
            rest.push((docs.len() - 1) as usize)
        } else {
            rest
        }
    }
}

/// The sort field of the document at position `i`, absent when there is no
/// document there.
pub open spec fn key_at(docs: Seq<Option<Value>>, field: Seq<char>, i: usize) -> Option<Value> {
    if i < docs.len() && docs[i as int] is Some {
        field_of(docs[i as int]->Some_0, field)
    } else {
        None
    }
}

/// An ordering, turned round for a descending sort.
pub open spec fn directed(o: Ordering, dir: SortOrder) -> Ordering {
    match dir {
        SortOrder::Asc => o,
        SortOrder::Desc => match o {
            Ordering::Less => Ordering::Greater,
            Ordering::Equal => Ordering::Equal,
            Ordering::Greater => Ordering::Less,
        },
    }
}

/// How the document at `x` orders against the one at `y` in a sort.
pub open spec fn order_at(
    docs: Seq<Option<Value>>,
    field: Seq<char>,
    dir: SortOrder,
    x: usize,
    y: usize,
) -> Ordering {
    directed(sort_order(key_at(docs, field, x), key_at(docs, field, y)), dir)
}

/// Where `x` goes when it is inserted into `s`, looking back from position
/// `j`: just after the last element before `j` that does not order after it.
pub open spec fn insert_position(
    docs: Seq<Option<Value>>,
    field: Seq<char>,
    dir: SortOrder,
    s: Seq<usize>,
    x: usize,
    j: int,
) -> int
    decreases j,
{
    if j <= 0 {
        0
    } else if order_at(docs, field, dir, s[j - 1], x) == Ordering::Greater {
        insert_position(docs, field, dir, s, x, j - 1)
    } else {
        j
    }
}

/// The positions `s` in sorted order: each in turn is placed after every
/// earlier one that does not order after it, so that ties keep their order.
pub open spec fn sorted_by_field(
    docs: Seq<Option<Value>>,
    field: Seq<char>,
    dir: SortOrder,
    s: Seq<usize>,
) -> Seq<usize>
    decreases s.len(),
{
    if s.len() == 0 {
        s
    } else {
        let t = sorted_by_field(docs, field, dir, s.drop_last());
        t.insert(insert_position(docs, field, dir, t, s.last(), t.len() as int), s.last())
    }
}

/// The part of `s` that a skip and a limit keep: the first `skip` elements
/// are dropped, then at most `limit` are kept.
pub open spec fn paginate<T>(s: Seq<T>, skip: Option<usize>, limit: Option<usize>) -> Seq<T> {
    let t = match skip {
        Some(k) => if k <= s.len() {
            s.skip(k as int)
        } else {
            Seq::empty()
        },
        None => s,
    };
    match limit {
        Some(l) => if l < t.len() {
            t.take(l as int)
        } else {
            t
        },
        None => t,
    }
}

/// A query on one collection: conditions that all must hold, an optional
/// sort, and an optional skip and limit, applied in that order.
#[derive(Debug)]
pub struct QueryBuilder {
    /// The collection that is scanned.
    pub collection: String,
    /// The conditions, each on a named field.
    pub filters: Vec<(String, Query)>,
    /// The field to sort by, and the direction.
    pub sort: Option<(String, SortOrder)>,
    /// How many results are kept at most.
    pub limit: Option<usize>,
    /// How many results are dropped from the front.
    pub skip: Option<usize>,
}

/// The positions of the documents that meet a query's conditions, in the
/// order of its sort, before any skip or limit.
pub open spec fn ordered_result(q: QueryBuilder, docs: Seq<Option<Value>>) -> Seq<usize> {
    let sel = selected(q.filters@, docs);
    match q.sort {
        Some(s) => sorted_by_field(docs, s.0@, s.1, sel),
        None => sel,
    }
}

/// The positions of the documents that a query returns, in the order it
/// returns them.
pub open spec fn query_result(q: QueryBuilder, docs: Seq<Option<Value>>) -> Seq<usize> {
    paginate(ordered_result(q, docs), q.skip, q.limit)
}

/// Whether the field value `v` meets the condition `q`.
pub fn matches_filter(q: &Query, v: Option<&Value>) -> (r: bool)
    ensures
        r == filter_holds(*q, owned(v)),
{
    match q {
        Query::Eq(e) => match v {
            Some(x) => values_equal(x, e),
            None => false,
        },
        Query::Ne(e) => match v {
            Some(x) => !values_equal(x, e),
            None => true,
        },
        Query::Gt(e) => match (v, e) {
            (Some(Value::Number(m)), Value::Number(n)) => *m > *n,
            _ => false,
        },
        Query::Gte(e) => match (v, e) {
            (Some(Value::Number(m)), Value::Number(n)) => *m >= *n,
            _ => false,
        },
        Query::Lt(e) => match (v, e) {
            (Some(Value::Number(m)), Value::Number(n)) => *m < *n,
            _ => false,
        },
        Query::Lte(e) => match (v, e) {
            (Some(Value::Number(m)), Value::Number(n)) => *m <= *n,
            _ => false,
        },
        Query::Contains(s) => match v {
            Some(Value::Str(t)) => contains_text(t.as_str(), s.as_str()),
            _ => false,
        },
        Query::In(vs) => match v {
            Some(x) => is_member(x, vs),
            None => false,
        },
        Query::NotIn(vs) => match v {
            Some(x) => !is_member(x, vs),
            None => true,
        },
    }
}

fn is_member(x: &Value, vs: &Vec<Value>) -> (r: bool)
    ensures
        r == member(*x, vs@),
{
    let mut i: usize = 0;
    while i < vs.len()
        invariant
            i <= vs@.len(),
            forall|j: int| 0 <= j < i ==> !value_eq(*x, #[trigger] vs@[j]),
        decreases vs@.len() - i,
    {
        if values_equal(x, &vs[i]) {
            return true;
        }
        i = i + 1;
    }
    false
}

/// The sort field of the fetched document at `i`, if there is one.
fn key_of<'a>(docs: &'a Vec<Option<Value>>, field: &String, i: usize) -> (r: Option<&'a Value>)
    requires
        i < docs@.len(),
    ensures
        owned(r) == key_at(docs@, field@, i),
{
    match &docs[i] {
        Some(d) => get_field(d, field),
        None => None,
    }
}

fn order_of(docs: &Vec<Option<Value>>, field: &String, dir: SortOrder, x: usize, y: usize) -> (r:
    Ordering)
    requires
        x < docs@.len(),
        y < docs@.len(),
    ensures
        r == order_at(docs@, field@, dir, x, y),
{
    let o = compare_values(key_of(docs, field, x), key_of(docs, field, y));
    match dir {
        SortOrder::Asc => o,
        SortOrder::Desc => match o {
            Ordering::Less => Ordering::Greater,
            Ordering::Equal => Ordering::Equal,
            Ordering::Greater => Ordering::Less,
        },
    }
}

/// Sorts the positions `sel` by the field `field` of the documents they
/// point to; ties keep their order.
fn sort_positions(docs: &Vec<Option<Value>>, field: &String, dir: SortOrder, sel: &Vec<usize>) -> (r:
    Vec<usize>)
    requires
        forall|k: int| 0 <= k < sel@.len() ==> #[trigger] sel@[k] < docs@.len(),
    ensures
        r@ == sorted_by_field(docs@, field@, dir, sel@),
{
    let mut out: Vec<usize> = Vec::new();
    let mut i: usize = 0;
    assert(sel@.take(0) =~= Seq::<usize>::empty());
    while i < sel.len()
        invariant
            i <= sel@.len(),
            forall|k: int| 0 <= k < sel@.len() ==> #[trigger] sel@[k] < docs@.len(),
            out@ == sorted_by_field(docs@, field@, dir, sel@.take(i as int)),
            forall|k: int| 0 <= k < out@.len() ==> #[trigger] out@[k] < docs@.len(),
        decreases sel@.len() - i,
    {
        let x = sel[i];
        let mut j: usize = out.len();
        loop
            invariant
                j <= out@.len(),
                x < docs@.len(),
                forall|k: int| 0 <= k < out@.len() ==> #[trigger] out@[k] < docs@.len(),
                insert_position(docs@, field@, dir, out@, x, out@.len() as int)
                    == insert_position(docs@, field@, dir, out@, x, j as int),
            ensures
                j <= out@.len(),
                insert_position(docs@, field@, dir, out@, x, out@.len() as int) == j,
            decreases j,
        {
            if j == 0 {
                break;
            }
            match order_of(docs, field, dir, out[j - 1], x) {
                Ordering::Greater => {
                    j = j - 1;
                },
                _ => {
                    break;
                },
            }
        }
        proof {
            let s = sel@.take(i + 1);
            assert(s.drop_last() =~= sel@.take(i as int));
            assert(s.last() == x);
        }
        out.insert(j, x);
        i = i + 1;
    }
    assert(sel@.take(sel@.len() as int) =~= sel@);
    out
}

/// The part of `s` that `skip` and then `limit` keep.
fn paginate_positions(s: Vec<usize>, skip: Option<usize>, limit: Option<usize>) -> (r: Vec<usize>)
    ensures
        r@ == paginate(s@, skip, limit),
{
    let mut t: Vec<usize> = match skip {
        Some(k) => {
            let mut kept: Vec<usize> = Vec::new();
            let mut i: usize = if k <= s.len() { k } else { s.len() };
            while i < s.len()
                invariant
                    k <= s@.len() ==> k <= i,
                    k > s@.len() ==> i == s@.len() && kept@.len() == 0,
                    i <= s@.len(),
                    k <= s@.len() ==> kept@ == s@.subrange(k as int, i as int),
                decreases s@.len() - i,
            {
                kept.push(s[i]);
                assert(s@.subrange(k as int, i + 1) =~= s@.subrange(k as int, i as int).push(s@[i as int]));
                i = i + 1;
            }
            proof {
                if k <= s@.len() {
                    assert(s@.subrange(k as int, s@.len() as int) =~= s@.skip(k as int));
                } else {
                    assert(kept@ =~= Seq::<usize>::empty());
                }
            }
            kept
        },
        None => s,
    };
    match limit {
        Some(l) => {
            if l < t.len() {
                t.truncate(l);
                assert(t@ =~= paginate(s@, skip, limit));
            }
        },
        None => {},
    }
    t
}

impl Query {
    /// The field equals `value`.
    pub fn eq(value: Value) -> (r: Query)
        ensures
            r == Query::Eq(value),
    {
        Query::Eq(value)
    }

    /// The field is absent or differs from `value`.
    pub fn ne(value: Value) -> (r: Query)
        ensures
            r == Query::Ne(value),
    {
        Query::Ne(value)
    }

    /// The field is a number greater than `value`.
    pub fn gt(value: Value) -> (r: Query)
        ensures
            r == Query::Gt(value),
    {
        Query::Gt(value)
    }

    /// The field is a number not smaller than `value`.
    pub fn gte(value: Value) -> (r: Query)
        ensures
            r == Query::Gte(value),
    {
        Query::Gte(value)
    }

    /// The field is a number smaller than `value`.
    pub fn lt(value: Value) -> (r: Query)
        ensures
            r == Query::Lt(value),
    {
        Query::Lt(value)
    }

    /// The field is a number not greater than `value`.
    pub fn lte(value: Value) -> (r: Query)
        ensures
            r == Query::Lte(value),
    {
        Query::Lte(value)
    }

    /// The field is a text that contains `value`.
    pub fn contains(value: &str) -> (r: Query)
        ensures
            r matches Query::Contains(s) && s@ == value@,
    {
        Query::Contains(String::from_str(value))
    }

    /// The field equals one of `values`.
    pub fn in_values(values: Vec<Value>) -> (r: Query)
        ensures
            r == Query::In(values),
    {
        Query::In(values)
    }

    /// The field is absent or equals none of `values`.
    pub fn not_in(values: Vec<Value>) -> (r: Query)
        ensures
            r == Query::NotIn(values),
    {
        Query::NotIn(values)
    }
}

impl QueryBuilder {
    /// A query over the whole collection `collection`, unsorted and unpaged.
    pub fn new(collection: &str) -> (r: Self)
        ensures
            r.collection@ == collection@,
            r.filters@.len() == 0,
            r.sort is None,
            r.limit is None,
            r.skip is None,
    {
        QueryBuilder {
            collection: String::from_str(collection),
            filters: Vec::new(),
            sort: None,
            limit: None,
            skip: None,
        }
    }

    /// Adds the condition `query` on `field`, after those already held.
    pub fn filter(self, field: &str, query: Query) -> (r: Self)
        ensures
            r.collection == self.collection,
            r.filters@.len() == self.filters@.len() + 1,
            r.filters@.drop_last() == self.filters@,
            r.filters@.last().0@ == field@,
            r.filters@.last().1 == query,
            r.sort == self.sort,
            r.limit == self.limit,
            r.skip == self.skip,
    {
        let mut q = self;
        q.filters.push((String::from_str(field), query));
        proof {
            assert(q.filters@.drop_last() =~= self.filters@);
        }
        q
    }

    /// Sorts the results by `field` in the direction `order`, replacing any
    /// earlier sort.
    pub fn sort_by(self, field: &str, order: SortOrder) -> (r: Self)
        ensures
            r.collection == self.collection,
            r.filters == self.filters,
            r.sort matches Some(s) && s.0@ == field@ && s.1 == order,
            r.limit == self.limit,
            r.skip == self.skip,
    {
        let mut q = self;
        q.sort = Some((String::from_str(field), order));
        q
    }

    /// Keeps at most `limit` results.
    pub fn limit(self, limit: usize) -> (r: Self)
        ensures
            r.collection == self.collection,
            r.filters == self.filters,
            r.sort == self.sort,
            r.limit == Some(limit),
            r.skip == self.skip,
    {
        let mut q = self;
        q.limit = Some(limit);
        q
    }

    /// Drops the first `skip` results.
    pub fn skip(self, skip: usize) -> (r: Self)
        ensures
            r.collection == self.collection,
            r.filters == self.filters,
            r.sort == self.sort,
            r.limit == self.limit,
            r.skip == Some(skip),
    {
        let mut q = self;
        q.skip = Some(skip);
        q
    }

    /// Whether `doc` meets every condition, checked in order.
    pub fn matches_filters(&self, doc: &Value) -> (r: bool)
        ensures
            r == doc_matches(self.filters@, *doc),
    {
        let mut i: usize = 0;
        while i < self.filters.len()
            invariant
                i <= self.filters@.len(),
                forall|k: int|
                    #![trigger self.filters@[k]]
                    0 <= k < i ==> filter_holds(
                        self.filters@[k].1,
                        field_of(*doc, self.filters@[k].0@),
                    ),
            decreases self.filters@.len() - i,
        {
            let (field, query) = &self.filters[i];
            if !matches_filter(query, get_field(doc, field)) {
                return false;
            }
            i = i + 1;
        }
        true
    }

    /// Runs the query over the documents fetched from the collection, one
    /// entry per key in the order the keys were listed, `None` where the key
    /// held no readable document. Returns the positions of the documents that
    /// the query yields, in order.
    pub fn exec(&self, docs: &Vec<Option<Value>>) -> (r: Vec<usize>)
        ensures
            r@ == query_result(*self, docs@),
    {
        let sel = self.select(docs);
        let ordered = match &self.sort {
            Some((field, dir)) => sort_positions(docs, field, *dir, &sel),
            None => sel,
        };
        paginate_positions(ordered, self.skip, self.limit)
    }

    /// Counts the documents that meet the conditions. Without conditions
    /// every listed key counts, whether or not it held a readable document.
    pub fn count(&self, docs: &Vec<Option<Value>>) -> (r: usize)
        ensures
            self.filters@.len() == 0 ==> r == docs@.len(),
            self.filters@.len() > 0 ==> r == selected(self.filters@, docs@).len(),
    {
        if self.filters.len() == 0 {
            return docs.len();
        }
        let sel = self.select(docs);
        sel.len()
    }

    fn select(&self, docs: &Vec<Option<Value>>) -> (r: Vec<usize>)
        ensures
            r@ == selected(self.filters@, docs@),
            forall|k: int| 0 <= k < r@.len() ==> #[trigger] r@[k] < docs@.len(),
    {
        let mut out: Vec<usize> = Vec::new();
        let mut i: usize = 0;
        while i < docs.len()
            invariant
                i <= docs@.len(),
                out@ == selected(self.filters@, docs@.take(i as int)),
                forall|k: int| 0 <= k < out@.len() ==> #[trigger] out@[k] < i,
            decreases docs@.len() - i,
        {
            proof {
                let s = docs@.take(i + 1);
                assert(s.drop_last() =~= docs@.take(i as int));
                assert(s.last() == docs@[i as int]);
            }
            match &docs[i] {
                Some(d) => {
                    if self.matches_filters(d) {
                        out.push(i);
                    }
                },
                None => {},
            }
            i = i + 1;
        }
        assert(docs@.take(docs@.len() as int) =~= docs@);
        out
    }
}

proof fn lemma_selected(filters: Seq<(String, Query)>, docs: Seq<Option<Value>>)
    requires
        docs.len() <= usize::MAX,
    ensures
        forall|k: int|
            0 <= k < selected(filters, docs).len() ==> #[trigger] selected(filters, docs)[k]
                < docs.len(),
        forall|a: int, b: int|
            0 <= a < b < selected(filters, docs).len() ==> #[trigger] selected(filters, docs)[a]
                < #[trigger] selected(filters, docs)[b],
        forall|i: int|
            0 <= i < docs.len() ==> (#[trigger] selected(filters, docs).contains(i as usize) <==> (
            docs[i] matches Some(d) && doc_matches(filters, d))),
    decreases docs.len(),
{
    if docs.len() > 0 {
        let rest = docs.drop_last();
        lemma_selected(filters, rest);
        let sel = selected(filters, docs);
        let prev = selected(filters, rest);
        assert forall|i: int| 0 <= i < docs.len() implies (#[trigger] sel.contains(i as usize) <==> (
        docs[i] matches Some(d) && doc_matches(filters, d))) by {
            if i < docs.len() - 1 {
                assert(rest[i] == docs[i]);
                assert(prev.contains(i as usize) ==> sel.contains(i as usize)) by {
                    if prev.contains(i as usize) {
                        let k = choose|k: int| 0 <= k < prev.len() && prev[k] == i as usize;
                        assert(sel[k] == i as usize);
                    }
                }
                assert(sel.contains(i as usize) ==> prev.contains(i as usize)) by {
                    if sel.contains(i as usize) {
                        let k = choose|k: int| 0 <= k < sel.len() && sel[k] == i as usize;
                        if k < prev.len() {
                            assert(prev[k] == i as usize);
                        } else {
                            assert(sel[k] == (docs.len() - 1) as usize);
                        }
                    }
                }
            } else {
                if docs.last() matches Some(d) && doc_matches(filters, d) {
                    assert(sel[sel.len() - 1] == i as usize);
                } else {
                    assert(sel == prev);
                }
            }
        }
    }
}

proof fn lemma_insert_position_bounds(
    docs: Seq<Option<Value>>,
    field: Seq<char>,
    dir: SortOrder,
    t: Seq<usize>,
    x: usize,
    j: int,
)
    requires
        0 <= j,
    ensures
        0 <= insert_position(docs, field, dir, t, x, j) <= j,
    decreases j,
{
    if j > 0 {
        lemma_insert_position_bounds(docs, field, dir, t, x, j - 1);
    }
}

proof fn lemma_insert_position_passes_ties(
    docs: Seq<Option<Value>>,
    field: Seq<char>,
    dir: SortOrder,
    t: Seq<usize>,
    x: usize,
    j: int,
    k: int,
)
    requires
        0 <= k < j,
        order_at(docs, field, dir, t[k], x) != Ordering::Greater,
    ensures
        k < insert_position(docs, field, dir, t, x, j),
    decreases j,
{
    if order_at(docs, field, dir, t[j - 1], x) == Ordering::Greater {
        lemma_insert_position_passes_ties(docs, field, dir, t, x, j - 1, k);
    }
}

proof fn lemma_sorted_permutes(
    docs: Seq<Option<Value>>,
    field: Seq<char>,
    dir: SortOrder,
    s: Seq<usize>,
)
    ensures
        sorted_by_field(docs, field, dir, s).len() == s.len(),
        forall|m: int|
            0 <= m < s.len() ==> s.contains(#[trigger] sorted_by_field(docs, field, dir, s)[m]),
        forall|k: int| 0 <= k < s.len() ==> sorted_by_field(docs, field, dir, s).contains(#[trigger] s[k]),
    decreases s.len(),
{
    if s.len() > 0 {
        let t = sorted_by_field(docs, field, dir, s.drop_last());
        lemma_sorted_permutes(docs, field, dir, s.drop_last());
        let p = insert_position(docs, field, dir, t, s.last(), t.len() as int);
        lemma_insert_position_bounds(docs, field, dir, t, s.last(), t.len() as int);
        t.insert_ensures(p, s.last());
        let r = sorted_by_field(docs, field, dir, s);
        assert forall|m: int| 0 <= m < s.len() implies s.contains(#[trigger] r[m]) by {
            if m < p {
                assert(s.drop_last().contains(t[m]));
            } else if m == p {
                assert(s[s.len() - 1] == r[m]);
            } else {
                assert(r[m] == t[m - 1]);
                assert(s.drop_last().contains(t[m - 1]));
            }
        }
        assert forall|k: int| 0 <= k < s.len() implies r.contains(#[trigger] s[k]) by {
            if k == s.len() - 1 {
                assert(r[p] == s[k]);
            } else {
                assert(s.drop_last()[k] == s[k]);
                assert(t.contains(s[k]));
                let m = choose|m: int| 0 <= m < t.len() && t[m] == s[k];
                if m < p {
                    assert(r[m] == s[k]);
                } else {
                    assert(r[m + 1] == s[k]);
                }
            }
        }
    }
}

proof fn lemma_sorted_keeps_ties(
    docs: Seq<Option<Value>>,
    field: Seq<char>,
    dir: SortOrder,
    s: Seq<usize>,
    a: int,
    b: int,
)
    requires
        s.no_duplicates(),
        0 <= a < b < s.len(),
        order_at(docs, field, dir, s[a], s[b]) == Ordering::Equal,
    ensures
        forall|x: int, y: int|
            0 <= x < s.len() && 0 <= y < s.len() && #[trigger] sorted_by_field(docs, field, dir, s)[x]
                == s[a] && #[trigger] sorted_by_field(docs, field, dir, s)[y] == s[b] ==> x < y,
    decreases s.len(),
{
    let n = s.len();
    let s1 = s.drop_last();
    let e = s.last();
    let t = sorted_by_field(docs, field, dir, s1);
    let p = insert_position(docs, field, dir, t, e, t.len() as int);
    let r = sorted_by_field(docs, field, dir, s);
    lemma_sorted_permutes(docs, field, dir, s1);
    lemma_insert_position_bounds(docs, field, dir, t, e, t.len() as int);
    t.insert_ensures(p, e);
    assert(!s1.contains(e)) by {
        if s1.contains(e) {
            let k = choose|k: int| 0 <= k < s1.len() && s1[k] == e;
            assert(s[k] == s[n - 1]);
        }
    }
    assert forall|x: int, y: int|
        0 <= x < n && 0 <= y < n && r[x] == s[a] && r[y] == s[b] implies x < y by {
        assert(s[a] != e);
        assert(x != p);
        let x1 = if x < p { x } else { x - 1 };
        assert(t[x1] == s[a]);
        if b < n - 1 {
            assert(s[b] != e);
            assert(y != p);
            let y1 = if y < p { y } else { y - 1 };
            assert(t[y1] == s[b]);
            assert(s1.no_duplicates());
            assert(s1[a] == s[a] && s1[b] == s[b]);
            lemma_sorted_keeps_ties(docs, field, dir, s1, a, b);
            assert(x1 < y1);
        } else {
            if y != p {
                let y1 = if y < p { y } else { y - 1 };
                assert(t[y1] == e);
                assert(s1.contains(t[y1]));
            }
            lemma_insert_position_passes_ties(docs, field, dir, t, e, t.len() as int, x1);
        }
    }
}

/// A query with the single condition `field == v` yields every document
/// whose `field` is `v`, and one with `field != v` yields none of them, for
/// every well-formed `v`.
pub proof fn lemma_eq_includes_ne_excludes(
    q: QueryBuilder,
    docs: Seq<Option<Value>>,
    i: int,
    field: String,
    v: Value,
)
    requires
        docs.len() <= usize::MAX,
        0 <= i < docs.len(),
        docs[i] matches Some(d) && field_of(d, field@) == Some(v),
        value_wf(v),
        q.sort is None,
        q.skip is None,
        q.limit is None,
    ensures
        q.filters@ == seq![(field, Query::Eq(v))] ==> query_result(q, docs).contains(i as usize),
        q.filters@ == seq![(field, Query::Ne(v))] ==> !query_result(q, docs).contains(i as usize),
{
    crate::value::lemma_value_eq_reflexive(v);
    lemma_selected(q.filters@, docs);
    let d = docs[i]->Some_0;
    if q.filters@ == seq![(field, Query::Eq(v))] {
        assert(q.filters@[0] == (field, Query::Eq(v)));
        assert(doc_matches(q.filters@, d));
        assert(query_result(q, docs) == selected(q.filters@, docs));
    }
    if q.filters@ == seq![(field, Query::Ne(v))] {
        assert(q.filters@[0] == (field, Query::Ne(v)));
        assert(!doc_matches(q.filters@, d));
        assert(query_result(q, docs) == selected(q.filters@, docs));
    }
}

/// A document that lacks `field` meets `field != v` and `field not in vs`,
/// whatever `v` and `vs` are.
pub proof fn lemma_absent_field_matches(
    q: QueryBuilder,
    docs: Seq<Option<Value>>,
    i: int,
    field: String,
    v: Value,
    vs: Vec<Value>,
)
    requires
        docs.len() <= usize::MAX,
        0 <= i < docs.len(),
        docs[i] matches Some(d) && field_of(d, field@) is None,
        q.sort is None,
        q.skip is None,
        q.limit is None,
    ensures
        q.filters@ == seq![(field, Query::Ne(v))] ==> query_result(q, docs).contains(i as usize),
        q.filters@ == seq![(field, Query::NotIn(vs))] ==> query_result(q, docs).contains(
            i as usize,
        ),
{
    lemma_selected(q.filters@, docs);
    let d = docs[i]->Some_0;
    if q.filters@ == seq![(field, Query::Ne(v))] {
        assert(q.filters@[0] == (field, Query::Ne(v)));
        assert(doc_matches(q.filters@, d));
        assert(query_result(q, docs) == selected(q.filters@, docs));
    }
    if q.filters@ == seq![(field, Query::NotIn(vs))] {
        assert(q.filters@[0] == (field, Query::NotIn(vs)));
        assert(doc_matches(q.filters@, d));
        assert(query_result(q, docs) == selected(q.filters@, docs));
    }
}

/// Whether every two of the positions `s` have sort keys that the sort
/// orders by their contents (see `keys_comparable`).
pub open spec fn comparable_keys(docs: Seq<Option<Value>>, field: Seq<char>, s: Seq<usize>) -> bool {
    forall|a: int, b: int|
        0 <= a < s.len() && 0 <= b < s.len() ==> keys_comparable(
            #[trigger] key_at(docs, field, s[a]),
            #[trigger] key_at(docs, field, s[b]),
        )
}

proof fn lemma_order_at_antisymmetric(
    docs: Seq<Option<Value>>,
    field: Seq<char>,
    dir: SortOrder,
    i: usize,
    j: usize,
)
    ensures
        order_at(docs, field, dir, i, j) == Ordering::Greater ==> order_at(docs, field, dir, j, i)
            == Ordering::Less,
{
    lemma_sort_order_antisymmetric(key_at(docs, field, i), key_at(docs, field, j));
    lemma_sort_order_antisymmetric(key_at(docs, field, j), key_at(docs, field, i));
}

proof fn lemma_order_at_transitive(
    docs: Seq<Option<Value>>,
    field: Seq<char>,
    dir: SortOrder,
    i: usize,
    j: usize,
    k: usize,
)
    requires
        keys_comparable(key_at(docs, field, i), key_at(docs, field, j)),
        keys_comparable(key_at(docs, field, j), key_at(docs, field, k)),
        keys_comparable(key_at(docs, field, i), key_at(docs, field, k)),
        order_at(docs, field, dir, i, j) != Ordering::Greater,
        order_at(docs, field, dir, j, k) != Ordering::Greater,
    ensures
        order_at(docs, field, dir, i, k) != Ordering::Greater,
{
    let x = key_at(docs, field, i);
    let y = key_at(docs, field, j);
    let z = key_at(docs, field, k);
    match dir {
        SortOrder::Asc => {
            lemma_sort_order_transitive(x, y, z);
        },
        SortOrder::Desc => {
            lemma_sort_order_antisymmetric(x, y);
            lemma_sort_order_antisymmetric(y, z);
            lemma_sort_order_antisymmetric(x, z);
            lemma_sort_order_antisymmetric(y, x);
            lemma_sort_order_antisymmetric(z, y);
            lemma_sort_order_antisymmetric(z, x);
            lemma_sort_order_transitive(z, y, x);
        },
    }
}

proof fn lemma_insert_position_scan(
    docs: Seq<Option<Value>>,
    field: Seq<char>,
    dir: SortOrder,
    t: Seq<usize>,
    x: usize,
    j: int,
)
    requires
        0 <= j <= t.len(),
    ensures
        forall|k: int|
            insert_position(docs, field, dir, t, x, j) <= k < j ==> order_at(
                docs,
                field,
                dir,
                #[trigger] t[k],
                x,
            ) == Ordering::Greater,
        insert_position(docs, field, dir, t, x, j) > 0 ==> order_at(
            docs,
            field,
            dir,
            t[insert_position(docs, field, dir, t, x, j) - 1],
            x,
        ) != Ordering::Greater,
    decreases j,
{
    if j > 0 && order_at(docs, field, dir, t[j - 1], x) == Ordering::Greater {
        lemma_insert_position_scan(docs, field, dir, t, x, j - 1);
    }
}

proof fn lemma_insert_keeps_order(
    docs: Seq<Option<Value>>,
    field: Seq<char>,
    dir: SortOrder,
    t: Seq<usize>,
    x: usize,
    p: int,
)
    requires
        0 <= p <= t.len(),
        forall|a: int, b: int|
            0 <= a < b < t.len() ==> order_at(docs, field, dir, #[trigger] t[a], #[trigger] t[b])
                != Ordering::Greater,
        forall|k: int|
            p <= k < t.len() ==> order_at(docs, field, dir, #[trigger] t[k], x) == Ordering::Greater,
        p > 0 ==> order_at(docs, field, dir, t[p - 1], x) != Ordering::Greater,
        forall|m: int, n: int|
            0 <= m < t.len() && 0 <= n < t.len() ==> keys_comparable(
                key_at(docs, field, #[trigger] t[m]),
                key_at(docs, field, #[trigger] t[n]),
            ),
        forall|m: int|
            0 <= m < t.len() ==> keys_comparable(
                key_at(docs, field, #[trigger] t[m]),
                key_at(docs, field, x),
            ) && keys_comparable(key_at(docs, field, x), key_at(docs, field, t[m])),
    ensures
        forall|a: int, b: int|
            0 <= a < b <= t.len() ==> order_at(
                docs,
                field,
                dir,
                #[trigger] t.insert(p, x)[a],
                #[trigger] t.insert(p, x)[b],
            ) != Ordering::Greater,
{
    let r = t.insert(p, x);
    t.insert_ensures(p, x);
    assert forall|a: int, b: int| 0 <= a < b <= t.len() implies order_at(
        docs,
        field,
        dir,
        #[trigger] r[a],
        #[trigger] r[b],
    ) != Ordering::Greater by {
        if a != p && b != p {
            let a1 = if a < p { a } else { a - 1 };
            let b1 = if b < p { b } else { b - 1 };
            assert(r[a] == t[a1] && r[b] == t[b1]);
            assert(a1 < b1);
        } else if a == p {
            assert(r[b] == t[b - 1]);
            assert(order_at(docs, field, dir, t[b - 1], x) == Ordering::Greater);
            lemma_order_at_antisymmetric(docs, field, dir, t[b - 1], x);
        } else {
            assert(r[a] == t[a]);
            if a < p - 1 {
                assert(order_at(docs, field, dir, t[a], t[p - 1]) != Ordering::Greater);
                assert(keys_comparable(key_at(docs, field, t[a]), key_at(docs, field, t[p - 1])));
                assert(keys_comparable(key_at(docs, field, t[a]), key_at(docs, field, x)));
                assert(keys_comparable(key_at(docs, field, t[p - 1]), key_at(docs, field, x)));
                lemma_order_at_transitive(docs, field, dir, t[a], t[p - 1], x);
            }
        }
    }
}

/// The sort puts documents in order when their keys are ordered by content:
/// if every two sort keys in play are comparable (either absent, or both
/// numbers, both texts or both booleans), no document in the sorted result
/// orders after one that follows it.
pub proof fn lemma_sorted_is_ordered(
    docs: Seq<Option<Value>>,
    field: Seq<char>,
    dir: SortOrder,
    s: Seq<usize>,
)
    requires
        comparable_keys(docs, field, s),
    ensures
        forall|a: int, b: int|
            0 <= a < b < s.len() ==> order_at(
                docs,
                field,
                dir,
                #[trigger] sorted_by_field(docs, field, dir, s)[a],
                #[trigger] sorted_by_field(docs, field, dir, s)[b],
            ) != Ordering::Greater,
    decreases s.len(),
{
    if s.len() > 0 {
        let s1 = s.drop_last();
        let x = s.last();
        let t = sorted_by_field(docs, field, dir, s1);
        let p = insert_position(docs, field, dir, t, x, t.len() as int);
        let r = sorted_by_field(docs, field, dir, s);
        assert(comparable_keys(docs, field, s1)) by {
            assert forall|a: int, b: int| 0 <= a < s1.len() && 0 <= b < s1.len() implies keys_comparable(
                #[trigger] key_at(docs, field, s1[a]),
                #[trigger] key_at(docs, field, s1[b]),
            ) by {
                assert(s1[a] == s[a] && s1[b] == s[b]);
                assert(keys_comparable(key_at(docs, field, s[a]), key_at(docs, field, s[b])));
            }
        }
        lemma_sorted_is_ordered(docs, field, dir, s1);
        lemma_sorted_permutes(docs, field, dir, s1);
        lemma_insert_position_bounds(docs, field, dir, t, x, t.len() as int);
        lemma_insert_position_scan(docs, field, dir, t, x, t.len() as int);
        assert forall|m: int, n: int|
            0 <= m < t.len() && 0 <= n < t.len() implies keys_comparable(
            key_at(docs, field, #[trigger] t[m]),
            key_at(docs, field, #[trigger] t[n]),
        ) by {
            assert(s1.contains(t[m]));
            assert(s1.contains(t[n]));
            let a = choose|a: int| 0 <= a < s1.len() && s1[a] == t[m];
            let b = choose|b: int| 0 <= b < s1.len() && s1[b] == t[n];
            assert(s[a] == t[m] && s[b] == t[n]);
            assert(keys_comparable(key_at(docs, field, s[a]), key_at(docs, field, s[b])));
        }
        assert forall|m: int| 0 <= m < t.len() implies keys_comparable(
            key_at(docs, field, #[trigger] t[m]),
            key_at(docs, field, x),
        ) && keys_comparable(key_at(docs, field, x), key_at(docs, field, t[m])) by {
            assert(s1.contains(t[m]));
            let a = choose|a: int| 0 <= a < s1.len() && s1[a] == t[m];
            assert(s[a] == t[m]);
            let last = s.len() - 1;
            assert(s[last] == x);
            assert(keys_comparable(key_at(docs, field, s[a]), key_at(docs, field, s[last])));
            assert(keys_comparable(key_at(docs, field, s[last]), key_at(docs, field, s[a])));
        }
        lemma_insert_keeps_order(docs, field, dir, t, x, p);
    }
}

/// Equality never coerces between kinds: a condition that a field equals a
/// number is not met by a text field, whatever the two hold, and the other
/// way round.
pub proof fn lemma_eq_is_kind_sensitive(n: i64, t: String)
    ensures
        !filter_holds(Query::Eq(Value::Number(n)), Some(Value::Str(t))),
        !filter_holds(Query::Eq(Value::Str(t)), Some(Value::Number(n))),
{
}

/// Sorting is stable: of two selected documents whose sort keys tie, the one
/// listed first comes out first.
pub proof fn lemma_sort_is_stable(
    q: QueryBuilder,
    docs: Seq<Option<Value>>,
    i: usize,
    j: usize,
    x: int,
    y: int,
)
    requires
        docs.len() <= usize::MAX,
        q.sort matches Some(s) && order_at(docs, s.0@, s.1, i, j) == Ordering::Equal,
        i < j,
        0 <= x < ordered_result(q, docs).len(),
        0 <= y < ordered_result(q, docs).len(),
        ordered_result(q, docs)[x] == i,
        ordered_result(q, docs)[y] == j,
    ensures
        x < y,
{
    let s = q.sort->Some_0;
    let sel = selected(q.filters@, docs);
    lemma_selected(q.filters@, docs);
    lemma_sorted_permutes(docs, s.0@, s.1, sel);
    let r = ordered_result(q, docs);
    assert(sel.contains(i));
    assert(sel.contains(j));
    let a = choose|a: int| 0 <= a < sel.len() && sel[a] == i;
    let b = choose|b: int| 0 <= b < sel.len() && sel[b] == j;
    assert(a < b) by {
        if b < a {
            assert(sel[b] < sel[a]);
        }
    }
    assert(sel.no_duplicates()) by {
        assert forall|m: int, n: int| 0 <= m < sel.len() && 0 <= n < sel.len() && m != n implies sel[m]
            != sel[n] by {
            if m < n {
                assert(sel[m] < sel[n]);
            } else {
                assert(sel[n] < sel[m]);
            }
        }
    }
    lemma_sorted_keeps_ties(docs, s.0@, s.1, sel, a, b);
    assert(r[x] == sel[a] && r[y] == sel[b]);
}

/// Skip and limit cut a slice out of the full ordered result: with skip `s`
/// and limit `l` a query returns the elements from `s` up to `s + l`, and
/// nothing when `s` is past the end.
pub proof fn lemma_pagination(q: QueryBuilder, docs: Seq<Option<Value>>, s: usize, l: usize)
    requires
        q.skip == Some(s),
        q.limit == Some(l),
    ensures
        ({
            let full = ordered_result(q, docs);
            query_result(q, docs) == if s >= full.len() {
                Seq::<usize>::empty()
            } else if s + l >= full.len() {
                full.subrange(s as int, full.len() as int)
            } else {
                full.subrange(s as int, s + l)
            }
        }),
{
    let full = ordered_result(q, docs);
    let r = query_result(q, docs);
    if s >= full.len() {
        if s == full.len() {
            assert(full.skip(s as int) =~= Seq::<usize>::empty());
        }
        assert(r =~= Seq::<usize>::empty());
    } else if s + l >= full.len() {
        assert(r =~= full.subrange(s as int, full.len() as int));
    } else {
        assert(r =~= full.subrange(s as int, s + l));
    }
}

} // verus!
