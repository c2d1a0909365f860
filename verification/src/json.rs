use vstd::prelude::*;

use crate::text::{
    decimal_string, decimal_text, lemma_text_lt_irreflexive, lemma_text_lt_total,
    lemma_text_lt_transitive, text_equal, text_less, text_lt,
};

verus! {

/// `serde_json::Number`.
#[verifier::external_type_specification]
#[verifier::external_body]
pub struct ExJsonNumber(serde_json::Number);

/// A JSON number: the `serde_json` number it was read as or made from, and the
/// text that number writes itself as, which is what the crate reasons about.
#[derive(Debug)]
pub struct JsonNumber {
    text: String,
    number: serde_json::Number,
}

/// The `serde_json` number of an unsigned integer (`Number::from`).
#[verifier::external_body]
fn number_from_u64(n: u64) -> serde_json::Number {
    serde_json::Number::from(n)
}

/// The text that a `serde_json` number writes itself as (`Display`).
#[verifier::external_body]
fn number_text(n: &serde_json::Number) -> String {
    n.to_string()
}

/// A copy of a `serde_json` number (`Clone`, derived, so the copy is the same
/// number).
#[verifier::external_body]
fn clone_number(n: &serde_json::Number) -> (r: serde_json::Number)
    ensures
        r == *n,
{
    n.clone()
}

/// A JSON document.
#[derive(Debug)]
pub enum Json {
    Null,
    Bool(bool),
    Number(JsonNumber),
    Str(String),
    Array(Vec<Json>),
    Object(Vec<(String, Json)>),
}

/// The mathematical value of a JSON document.
pub enum JsonView {
    Null,
    Bool(bool),
    Number(Seq<char>),
    Str(Seq<char>),
    Array(Seq<JsonView>),
    Object(Seq<(Seq<char>, JsonView)>),
}

impl View for JsonNumber {
    type V = Seq<char>;

    closed spec fn view(&self) -> Seq<char> {
        self.text@
    }
}

impl Json {
    /// The mathematical value of the document.
    pub open spec fn view(&self) -> JsonView
        decreases self,
    {
        match self {
            Json::Null => JsonView::Null,
            Json::Bool(b) => JsonView::Bool(*b),
            Json::Number(n) => JsonView::Number(n@),
            Json::Str(s) => JsonView::Str(s@),
            Json::Array(a) => JsonView::Array(
                Seq::new(a@.len(), |i: int| if 0 <= i < a@.len() { a@[i].view() } else { JsonView::Null }),
            ),
            Json::Object(o) => JsonView::Object(
                Seq::new(
                    o@.len(),
                    |i: int| if 0 <= i < o@.len() { (o@[i].0@, o@[i].1.view()) } else { (Seq::empty(), JsonView::Null) },
                ),
            ),
        }
    }
}

/// The entries of a JSON object: keys with their values, in order.
pub type Entries = Seq<(Seq<char>, JsonView)>;

/// The keys of the entries are in strictly increasing order, which is the order
/// in which a `serde_json` map holds them.
pub open spec fn keys_sorted(e: Entries) -> bool {
    forall|i: int, j: int| 0 <= i < j < e.len() ==> text_lt(#[trigger] e[i].0, #[trigger] e[j].0)
}

/// The number of children of a document: entries of an object, elements of an array.
pub open spec fn child_count(v: JsonView) -> int {
    match v {
        JsonView::Object(e) => e.len() as int,
        JsonView::Array(a) => a.len() as int,
        _ => 0,
    }
}

/// The `i`-th child of a document: the value of an entry of an object, an
/// element of an array.
pub open spec fn child(v: JsonView, i: int) -> JsonView {
    match v {
        JsonView::Object(e) => e[i].1,
        JsonView::Array(a) => a[i],
        _ => JsonView::Null,
    }
}

/// The keys of the document itself, when it is an object, are in order.
pub open spec fn locally_sorted(v: JsonView) -> bool {
    match v {
        JsonView::Object(e) => keys_sorted(e),
        _ => true,
    }
}

/// Every object among the children of `v` from the `i`-th on, at any depth,
/// has its keys in order.
pub open spec fn sorted_from(v: JsonView, i: int) -> bool
    decreases v, if 0 <= i < child_count(v) { child_count(v) - i } else { 0 },
{
    if 0 <= i < child_count(v) {
        match v {
            JsonView::Object(e) => locally_sorted(e[i].1) && sorted_from(e[i].1, 0) && sorted_from(v, i + 1),
            JsonView::Array(a) => locally_sorted(a[i]) && sorted_from(a[i], 0) && sorted_from(v, i + 1),
            _ => true,
        }
    } else {
        true
    }
}

/// Every number among the children of `v` from the `i`-th on, at any depth,
/// is an integer.
pub open spec fn integral_from(v: JsonView, i: int) -> bool
    decreases v, if 0 <= i < child_count(v) { child_count(v) - i } else { 0 },
{
    if 0 <= i < child_count(v) {
        match v {
            JsonView::Object(e) => e[i].1.locally_integral() && integral_from(e[i].1, 0) && integral_from(v, i + 1),
            JsonView::Array(a) => a[i].locally_integral() && integral_from(a[i], 0) && integral_from(v, i + 1),
            _ => true,
        }
    } else {
        true
    }
}

impl JsonView {
    /// Well-formed: every object, at any depth, has its keys in strictly
    /// increasing order.
    pub open spec fn wf(self) -> bool {
        locally_sorted(self) && sorted_from(self, 0)
    }

    /// The document itself, when it is a number, is an integer.
    pub open spec fn locally_integral(self) -> bool {
        match self {
            JsonView::Number(t) => integer_text(t),
            _ => true,
        }
    }

    /// Every number in the document, at any depth, is an integer.
    pub open spec fn integral(self) -> bool {
        self.locally_integral() && integral_from(self, 0)
    }

    /// The document is an array or an object.
    pub open spec fn is_container(self) -> bool {
        self is Array || self is Object
    }

    /// Arrays and objects nest at most `n` deep in the document: a container
    /// counts one level, and its children nest at most one level less.
    pub open spec fn depth_within(self, n: nat) -> bool {
        self.is_container() ==> n > 0 && within_from(self, (n - 1) as nat, 0)
    }
}

/// Every child of `v` from the `i`-th on nests at most `m` deep.
pub open spec fn within_from(v: JsonView, m: nat, i: int) -> bool
    decreases v, if 0 <= i < child_count(v) { child_count(v) - i } else { 0 },
{
    if 0 <= i < child_count(v) {
        match v {
            JsonView::Object(e) => (e[i].1.is_container() ==> m > 0 && within_from(e[i].1, (m - 1) as nat, 0))
                && within_from(v, m, i + 1),
            JsonView::Array(a) => (a[i].is_container() ==> m > 0 && within_from(a[i], (m - 1) as nat, 0)) && within_from(
                v,
                m,
                i + 1,
            ),
            _ => true,
        }
    } else {
        true
    }
}

proof fn lemma_within_from(v: JsonView, m: nat, i: int)
    requires
        0 <= i,
    ensures
        within_from(v, m, i) <==> forall|j: int| i <= j < child_count(v) ==> #[trigger] child(v, j).depth_within(m),
    decreases if i < child_count(v) { child_count(v) - i } else { 0 },
{
    if i < child_count(v) {
        lemma_within_from(v, m, i + 1);
        let c = child(v, i);
        assert(c.depth_within(m) == (c.is_container() ==> m > 0 && within_from(c, (m - 1) as nat, 0)));
        assert(within_from(v, m, i) == (c.depth_within(m) && within_from(v, m, i + 1)));
    }
}

/// A document nests at most `n` deep when it is not a container, or `n` is
/// positive and its children nest at most `n - 1` deep.
pub proof fn lemma_depth_children(v: JsonView, n: nat)
    ensures
        v.depth_within(n) <==> (v.is_container() ==> n > 0 && forall|j: int|
            0 <= j < child_count(v) ==> #[trigger] child(v, j).depth_within((n - 1) as nat)),
{
    lemma_within_from(v, (n - 1) as nat, 0);
}

proof fn lemma_sorted_from(v: JsonView, i: int)
    requires
        0 <= i,
    ensures
        sorted_from(v, i) <==> forall|j: int| i <= j < child_count(v) ==> #[trigger] child(v, j).wf(),
    decreases if i < child_count(v) { child_count(v) - i } else { 0 },
{
    if i < child_count(v) {
        lemma_sorted_from(v, i + 1);
        assert(child(v, i).wf() == (locally_sorted(child(v, i)) && sorted_from(child(v, i), 0)));
    }
}

proof fn lemma_integral_from(v: JsonView, i: int)
    requires
        0 <= i,
    ensures
        integral_from(v, i) <==> forall|j: int| i <= j < child_count(v) ==> #[trigger] child(v, j).integral(),
    decreases if i < child_count(v) { child_count(v) - i } else { 0 },
{
    if i < child_count(v) {
        lemma_integral_from(v, i + 1);
        assert(child(v, i).integral() == (child(v, i).locally_integral() && integral_from(child(v, i), 0)));
    }
}

/// A document is well-formed when its own keys are in order and its children
/// are well-formed.
pub proof fn lemma_wf_children(v: JsonView)
    ensures
        v.wf() <==> locally_sorted(v) && forall|j: int| 0 <= j < child_count(v) ==> #[trigger] child(v, j).wf(),
{
    lemma_sorted_from(v, 0);
}

/// A document is integral when it is an integer or not a number, and its
/// children are integral.
pub proof fn lemma_integral_children(v: JsonView)
    ensures
        v.integral() <==> v.locally_integral() && forall|j: int| 0 <= j < child_count(v) ==> #[trigger] child(v, j).integral(),
{
    lemma_integral_from(v, 0);
}

/// The value that an object holds under a key (`Map::get`).
pub open spec fn entry_lookup(e: Entries, k: Seq<char>) -> Option<JsonView>
    decreases e.len(),
{
    if e.len() == 0 {
        None
    } else if e[0].0 == k {
        Some(e[0].1)
    } else {
        entry_lookup(e.drop_first(), k)
    }
}

/// The entries after `Map::insert` of a key and a value: the value of an equal
/// key is replaced, or the new entry goes before the first greater key.
pub open spec fn entry_insert(e: Entries, k: Seq<char>, v: JsonView) -> Entries
    decreases e.len(),
{
    if e.len() == 0 {
        seq![(k, v)]
    } else if e[0].0 == k {
        e.update(0, (k, v))
    } else if text_lt(k, e[0].0) {
        seq![(k, v)] + e
    } else {
        seq![e[0]] + entry_insert(e.drop_first(), k, v)
    }
}

/// The entries of a map built by inserting the given pairs one after another.
pub open spec fn entries_build(l: Entries) -> Entries
    decreases l.len(),
{
    if l.len() == 0 {
        seq![]
    } else {
        entry_insert(entries_build(l.drop_last()), l.last().0, l.last().1)
    }
}

pub proof fn lemma_lookup_none(e: Entries, k: Seq<char>)
    requires
        forall|i: int| 0 <= i < e.len() ==> #[trigger] e[i].0 != k,
    ensures
        entry_lookup(e, k) is None,
    decreases e.len(),
{
    if e.len() > 0 {
        assert(e[0].0 != k);
        assert forall|i: int| 0 <= i < e.drop_first().len() implies #[trigger] e.drop_first()[i].0 != k by {
            assert(e.drop_first()[i] == e[i + 1]);
        }
        lemma_lookup_none(e.drop_first(), k);
    }
}

pub proof fn lemma_lookup_some(e: Entries, k: Seq<char>)
    requires
        entry_lookup(e, k) is Some,
    ensures
        exists|i: int| 0 <= i < e.len() && e[i].0 == k && entry_lookup(e, k) == Some(#[trigger] e[i].1),
    decreases e.len(),
{
    if e[0].0 == k {
        assert(e[0].0 == k && entry_lookup(e, k) == Some(e[0].1));
    } else {
        lemma_lookup_some(e.drop_first(), k);
        let i = choose|i: int| 0 <= i < e.drop_first().len() && e.drop_first()[i].0 == k && entry_lookup(e.drop_first(), k) == Some(#[trigger] e.drop_first()[i].1);
        assert(e[i + 1] == e.drop_first()[i]);
    }
}

pub proof fn lemma_sorted_drop_first(e: Entries)
    requires
        keys_sorted(e),
        e.len() > 0,
    ensures
        keys_sorted(e.drop_first()),
{
    assert forall|i: int, j: int| 0 <= i < j < e.drop_first().len() implies text_lt(#[trigger] e.drop_first()[i].0, #[trigger] e.drop_first()[j].0) by {
        assert(e.drop_first()[i] == e[i + 1]);
        assert(e.drop_first()[j] == e[j + 1]);
    }
}

pub proof fn lemma_lookup_index(e: Entries, i: int)
    requires
        keys_sorted(e),
        0 <= i < e.len(),
    ensures
        entry_lookup(e, e[i].0) == Some(e[i].1),
    decreases e.len(),
{
    if i > 0 {
        lemma_text_lt_irreflexive(e[i].0);
        assert(text_lt(e[0].0, e[i].0));
        lemma_sorted_drop_first(e);
        assert(e.drop_first()[i - 1] == e[i]);
        lemma_lookup_index(e.drop_first(), i - 1);
    }
}

/// In sorted entries a key that is below the first key is not held.
proof fn lemma_lookup_below_first(e: Entries, k: Seq<char>)
    requires
        keys_sorted(e),
        e.len() > 0,
        text_lt(k, e[0].0),
    ensures
        entry_lookup(e, k) is None,
{
    assert forall|i: int| 0 <= i < e.len() implies #[trigger] e[i].0 != k by {
        lemma_text_lt_irreflexive(k);
        if i > 0 {
            lemma_text_lt_transitive(k, e[0].0, e[i].0);
        }
    }
    lemma_lookup_none(e, k);
}

/// Inserting into sorted entries keeps them sorted and inserts into the map they denote.
pub proof fn lemma_insert(e: Entries, k: Seq<char>, v: JsonView)
    requires
        keys_sorted(e),
    ensures
        keys_sorted(entry_insert(e, k, v)),
        forall|kk: Seq<char>| #[trigger] entry_lookup(entry_insert(e, k, v), kk)
            == if kk == k { Some(v) } else { entry_lookup(e, kk) },
        entry_insert(e, k, v).len() > 0,
        entry_insert(e, k, v)[0].0 == k || (e.len() > 0 && entry_insert(e, k, v)[0].0 == e[0].0),
    decreases e.len(),
{
    let r = entry_insert(e, k, v);
    if e.len() == 0 {
        assert forall|kk: Seq<char>| #[trigger] entry_lookup(r, kk)
            == if kk == k { Some(v) } else { entry_lookup(e, kk) } by {
            if kk != k {
                assert(r.drop_first() =~= Seq::<(Seq<char>, JsonView)>::empty());
                assert(entry_lookup(r, kk) == entry_lookup(r.drop_first(), kk));
            }
        }
    } else if e[0].0 == k {
        assert(r.drop_first() =~= e.drop_first());
        assert forall|i: int, j: int| 0 <= i < j < r.len() implies text_lt(#[trigger] r[i].0, #[trigger] r[j].0) by {
            assert(r[i].0 == e[i].0);
            assert(r[j].0 == e[j].0);
        }
        assert forall|kk: Seq<char>| #[trigger] entry_lookup(r, kk)
            == if kk == k { Some(v) } else { entry_lookup(e, kk) } by {
            if kk != k {
                assert(entry_lookup(r, kk) == entry_lookup(r.drop_first(), kk));
            }
        }
    } else if text_lt(k, e[0].0) {
        assert(r.drop_first() =~= e);
        assert forall|i: int, j: int| 0 <= i < j < r.len() implies text_lt(#[trigger] r[i].0, #[trigger] r[j].0) by {
            assert(r[j] == e[j - 1]);
            if i == 0 {
                if j - 1 > 0 {
                    lemma_text_lt_transitive(k, e[0].0, e[j - 1].0);
                }
            } else {
                assert(r[i] == e[i - 1]);
            }
        }
        assert forall|kk: Seq<char>| #[trigger] entry_lookup(r, kk)
            == if kk == k { Some(v) } else { entry_lookup(e, kk) } by {
            if kk != k {
                assert(entry_lookup(r, kk) == entry_lookup(r.drop_first(), kk));
            }
        }
    } else {
        lemma_text_lt_total(k, e[0].0);
        lemma_sorted_drop_first(e);
        let t = entry_insert(e.drop_first(), k, v);
        lemma_insert(e.drop_first(), k, v);
        assert(r.drop_first() =~= t);
        assert(r[0] == e[0]);
        assert forall|i: int, j: int| 0 <= i < j < r.len() implies text_lt(#[trigger] r[i].0, #[trigger] r[j].0) by {
            if i == 0 {
                assert(r[j] == t[j - 1]);
                // every key of t is k or a key of e after the first
                if t[j - 1].0 == k {
                } else {
                    assert(entry_lookup(t, t[j - 1].0) == Some(t[j - 1].1)) by {
                        lemma_lookup_index(t, j - 1);
                    }
                    assert(entry_lookup(e.drop_first(), t[j - 1].0) is Some);
                    lemma_lookup_some(e.drop_first(), t[j - 1].0);
                    let m = choose|m: int| 0 <= m < e.drop_first().len() && e.drop_first()[m].0 == t[j - 1].0 && entry_lookup(e.drop_first(), t[j - 1].0) == Some(#[trigger] e.drop_first()[m].1);
                    assert(e.drop_first()[m] == e[m + 1]);
                }
            } else {
                assert(r[i] == t[i - 1]);
                assert(r[j] == t[j - 1]);
            }
        }
        assert forall|kk: Seq<char>| #[trigger] entry_lookup(r, kk)
            == if kk == k { Some(v) } else { entry_lookup(e, kk) } by {
            if kk == e[0].0 {
            } else {
                assert(entry_lookup(r, kk) == entry_lookup(t, kk));
            }
        }
    }
}

/// In sorted entries the first key is not held again further on.
proof fn lemma_first_key_not_in_rest(e: Entries)
    requires
        keys_sorted(e),
        e.len() > 0,
    ensures
        entry_lookup(e.drop_first(), e[0].0) is None,
{
    assert forall|i: int| 0 <= i < e.drop_first().len() implies #[trigger] e.drop_first()[i].0 != e[0].0 by {
        assert(e.drop_first()[i] == e[i + 1]);
        lemma_text_lt_irreflexive(e[0].0);
    }
    lemma_lookup_none(e.drop_first(), e[0].0);
}

/// Sorted entries are determined by the map they denote.
pub proof fn lemma_sorted_entries_canonical(e1: Entries, e2: Entries)
    requires
        keys_sorted(e1),
        keys_sorted(e2),
        forall|k: Seq<char>| #[trigger] entry_lookup(e1, k) == entry_lookup(e2, k),
    ensures
        e1 == e2,
    decreases e1.len(),
{
    if e1.len() == 0 {
        if e2.len() > 0 {
            lemma_lookup_index(e2, 0);
            assert(entry_lookup(e1, e2[0].0) is None);
        }
        assert(e1 =~= e2);
    } else if e2.len() == 0 {
        lemma_lookup_index(e1, 0);
        assert(entry_lookup(e2, e1[0].0) is None);
    } else {
        let k1 = e1[0].0;
        let k2 = e2[0].0;
        lemma_lookup_index(e1, 0);
        lemma_lookup_index(e2, 0);
        if text_lt(k1, k2) {
            lemma_lookup_below_first(e2, k1);
            assert(entry_lookup(e1, k1) == entry_lookup(e2, k1));
        }
        if text_lt(k2, k1) {
            lemma_lookup_below_first(e1, k2);
            assert(entry_lookup(e1, k2) == entry_lookup(e2, k2));
        }
        lemma_text_lt_total(k1, k2);
        assert(k1 == k2);
        assert(entry_lookup(e1, k1) == entry_lookup(e2, k1));
        assert(e1[0] == e2[0]);
        let t1 = e1.drop_first();
        let t2 = e2.drop_first();
        lemma_sorted_drop_first(e1);
        lemma_sorted_drop_first(e2);
        lemma_first_key_not_in_rest(e1);
        lemma_first_key_not_in_rest(e2);
        assert forall|k: Seq<char>| #[trigger] entry_lookup(t1, k) == entry_lookup(t2, k) by {
            if k != k1 {
                assert(entry_lookup(e1, k) == entry_lookup(t1, k));
                assert(entry_lookup(e2, k) == entry_lookup(t2, k));
                assert(entry_lookup(e1, k) == entry_lookup(e2, k));
            }
        }
        lemma_sorted_entries_canonical(t1, t2);
        assert(e1 =~= seq![e1[0]] + t1);
        assert(e2 =~= seq![e2[0]] + t2);
    }
}

/// The value of the last pair with the given key.
pub open spec fn last_lookup(l: Entries, k: Seq<char>) -> Option<JsonView>
    decreases l.len(),
{
    if l.len() == 0 {
        None
    } else if l.last().0 == k {
        Some(l.last().1)
    } else {
        last_lookup(l.drop_last(), k)
    }
}

/// Inserting pairs one after another gives sorted entries that hold, for each
/// key, the value of the last pair with that key.
pub proof fn lemma_entries_build(l: Entries)
    ensures
        keys_sorted(entries_build(l)),
        forall|k: Seq<char>| #[trigger] entry_lookup(entries_build(l), k) == last_lookup(l, k),
    decreases l.len(),
{
    if l.len() == 0 {
        assert forall|k: Seq<char>| #[trigger] entry_lookup(entries_build(l), k) == last_lookup(l, k) by {}
    } else {
        lemma_entries_build(l.drop_last());
        lemma_insert(entries_build(l.drop_last()), l.last().0, l.last().1);
        assert forall|k: Seq<char>| #[trigger] entry_lookup(entries_build(l), k) == last_lookup(l, k) by {
            assert(entry_lookup(entries_build(l.drop_last()), k) == last_lookup(l.drop_last(), k));
        }
    }
}

/// The entries of an object, by their views.
pub open spec fn entries_view(o: Seq<(String, Json)>) -> Entries {
    Seq::new(o.len(), |i: int| if 0 <= i < o.len() { (o[i].0@, o[i].1@) } else { (Seq::empty(), JsonView::Null) })
}

/// The elements of an array, by their views.
pub open spec fn elements_view(a: Seq<Json>) -> Seq<JsonView> {
    Seq::new(a.len(), |i: int| if 0 <= i < a.len() { a[i]@ } else { JsonView::Null })
}

pub proof fn lemma_object_view(o: Vec<(String, Json)>)
    ensures
        Json::Object(o)@ == JsonView::Object(entries_view(o@)),
{
    let j = Json::Object(o);
    match j@ {
        JsonView::Object(e) => {
            assert(e.len() == o@.len());
            assert forall|i: int| 0 <= i < e.len() implies e[i] == entries_view(o@)[i] by {
                assert(e[i] == (o@[i].0@, o@[i].1@));
            }
            assert(e =~= entries_view(o@));
        },
        _ => {},
    }
}

pub proof fn lemma_array_view(a: Vec<Json>)
    ensures
        Json::Array(a)@ == JsonView::Array(elements_view(a@)),
{
    let j = Json::Array(a);
    match j@ {
        JsonView::Array(e) => {
            assert(e =~= elements_view(a@));
        },
        _ => {},
    }
}

impl JsonNumber {
    /// The `serde_json` number that is written for this number.
    pub closed spec fn written(&self) -> serde_json::Number {
        self.number
    }

    /// The number `n`.
    pub fn from_u64(n: u64) -> (r: JsonNumber)
        ensures
            r@ == decimal_text(n as nat),
    {
        JsonNumber { text: decimal_string(n), number: number_from_u64(n) }
    }

    /// A `serde_json` number, with the text that it writes itself as
    /// (`to_string`).  The text is what `serde_json` gives, so nothing is
    /// stated of it here.
    pub fn from_number(number: serde_json::Number) -> (r: JsonNumber)
        ensures
            r.written() == number,
    {
        JsonNumber { text: number_text(&number), number }
    }

    /// The `serde_json` number, for writing.
    pub fn serde_number(&self) -> (r: &serde_json::Number)
        ensures
            *r == self.written(),
    {
        &self.number
    }

    /// An equal copy of the number.
    pub fn copy(&self) -> (r: JsonNumber)
        ensures
            r@ == self@,
            r.written() == self.written(),
    {
        JsonNumber { text: self.text.clone(), number: clone_number(&self.number) }
    }

    /// The text that denotes the number.
    pub fn text(&self) -> (r: String)
        ensures
            r@ == self@,
    {
        self.text.clone()
    }
}

/// The value held under `key` in the entries of an object (`Map::get`).
pub fn entries_get<'a>(entries: &'a Vec<(String, Json)>, key: &str) -> (r: Option<&'a Json>)
    ensures
        match r {
            Some(v) => entry_lookup(entries_view(entries@), key@) == Some(v@),
            None => entry_lookup(entries_view(entries@), key@) is None,
        },
{
    let ghost ev = entries_view(entries@);
    let mut i: usize = 0;
    assert(ev.skip(0) =~= ev);
    while i < entries.len()
        invariant
            ev == entries_view(entries@),
            i <= entries.len(),
            entry_lookup(ev, key@) == entry_lookup(ev.skip(i as int), key@),
        decreases entries.len() - i,
    {
        let ghost rest = ev.skip(i as int);
        assert(rest[0] == ev[i as int]);
        assert(rest.drop_first() =~= ev.skip(i + 1));
        if text_equal(entries[i].0.as_str(), key) {
            return Some(&entries[i].1);
        }
        i = i + 1;
    }
    assert(ev.skip(i as int).len() == 0);
    None
}

/// Inserts a key and a value into the entries of an object (`Map::insert`).
pub fn entries_insert(entries: &mut Vec<(String, Json)>, key: String, value: Json)
    ensures
        entries_view(final(entries)@) == entry_insert(entries_view(old(entries)@), key@, value@),
{
    let ghost ev = entries_view(entries@);
    let ghost k = key@;
    let ghost v = value@;
    let mut i: usize = 0;
    assert(ev.skip(0) =~= ev);
    assert(ev.take(0) + entry_insert(ev.skip(0), k, v) =~= entry_insert(ev, k, v));
    while i < entries.len()
        invariant
            ev == entries_view(entries@),
            ev == entries_view(old(entries)@),
            k == key@,
            v == value@,
            i <= entries.len(),
            entry_insert(ev, k, v) == ev.take(i as int) + entry_insert(ev.skip(i as int), k, v),
        decreases entries.len() - i,
    {
        let ghost rest = ev.skip(i as int);
        assert(rest[0] == ev[i as int]);
        assert(rest.drop_first() =~= ev.skip(i + 1));
        if text_equal(entries[i].0.as_str(), key.as_str()) {
            entries.set(i, (key, value));
            assert(entry_insert(rest, k, v) == rest.update(0, (k, v)));
            assert(entries_view(entries@) =~= ev.take(i as int) + rest.update(0, (k, v)));
            return;
        }
        if text_less(key.as_str(), entries[i].0.as_str()) {
            entries.insert(i, (key, value));
            assert(entries_view(entries@) =~= ev.take(i as int) + (seq![(k, v)] + rest));
            return;
        }
        assert(ev.take(i + 1) =~= ev.take(i as int).push(ev[i as int]));
        assert(ev.take(i as int) + entry_insert(rest, k, v) =~= ev.take(i + 1) + entry_insert(ev.skip(i + 1), k, v));
        i = i + 1;
    }
    entries.push((key, value));
    assert(ev.skip(i as int) =~= Seq::<(Seq<char>, JsonView)>::empty());
    assert(ev.take(i as int) =~= ev);
    assert(entries_view(entries@) =~= ev.push((k, v)));
}

impl Json {
    /// An equal copy of the document (`Clone`).
    pub fn deep_copy(&self) -> (r: Json)
        ensures
            r@ == self@,
            writes_like(*self, r),
    {
        copy_json(self)
    }

    /// The value under `key` when the document is an object (`Value::get`).
    pub fn get(&self, key: &str) -> (r: Option<&Json>)
        ensures
            match r {
                Some(v) => self@.get_key(key@) == Some(v@),
                None => self@.get_key(key@) is None,
            },
    {
        match self {
            Json::Object(o) => {
                proof {
                    lemma_object_view(*o);
                }
                entries_get(o, key)
            },
            _ => None,
        }
    }
}

impl JsonView {
    /// The value under a key when this is an object.
    pub open spec fn get_key(self, k: Seq<char>) -> Option<JsonView> {
        match self {
            JsonView::Object(e) => entry_lookup(e, k),
            _ => None,
        }
    }
}

/// The number of children of a document: elements of an array, entries of an object.
pub open spec fn json_children(a: Json) -> int {
    match a {
        Json::Array(x) => x@.len() as int,
        Json::Object(x) => x@.len() as int,
        _ => 0,
    }
}

/// The `i`-th child of a document: an element of an array, the value of an
/// entry of an object.
pub open spec fn json_child(a: Json, i: int) -> Json {
    match a {
        Json::Array(x) => x@[i],
        Json::Object(x) => x@[i].1,
        _ => Json::Null,
    }
}

/// Two documents write alike at their top: numbers write the same
/// `serde_json` number, arrays and objects have as many children.
pub open spec fn writes_like_locally(a: Json, b: Json) -> bool {
    match (a, b) {
        (Json::Number(x), Json::Number(y)) => x.written() == y.written(),
        (Json::Array(x), Json::Array(y)) => x@.len() == y@.len(),
        (Json::Object(x), Json::Object(y)) => x@.len() == y@.len(),
        _ => true,
    }
}

/// The children of `a` from the `i`-th on write alike with those of `b`.
pub open spec fn writes_like_from(a: Json, b: Json, i: int) -> bool
    decreases a, if 0 <= i < json_children(a) { json_children(a) - i } else { 0 },
{
    if 0 <= i < json_children(a) {
        match (a, b) {
            (Json::Array(x), Json::Array(y)) => writes_like_locally(x@[i], y@[i]) && writes_like_from(x@[i], y@[i], 0)
                && writes_like_from(a, b, i + 1),
            (Json::Object(x), Json::Object(y)) => writes_like_locally(x@[i].1, y@[i].1) && writes_like_from(
                x@[i].1,
                y@[i].1,
                0,
            ) && writes_like_from(a, b, i + 1),
            _ => true,
        }
    } else {
        true
    }
}

/// Two documents of the same shape write the same `serde_json` number at
/// each number of the first.
pub open spec fn writes_like(a: Json, b: Json) -> bool {
    writes_like_locally(a, b) && writes_like_from(a, b, 0)
}

proof fn lemma_writes_like_from(a: Json, b: Json, i: int)
    requires
        0 <= i,
        a is Array ==> b is Array,
        a is Object ==> b is Object,
    ensures
        writes_like_from(a, b, i) <==> forall|j: int| i <= j < json_children(a) ==> #[trigger] writes_like(json_child(a, j), json_child(b, j)),
    decreases if i < json_children(a) { json_children(a) - i } else { 0 },
{
    if i < json_children(a) {
        lemma_writes_like_from(a, b, i + 1);
        let ca = json_child(a, i);
        let cb = json_child(b, i);
        assert(writes_like(ca, cb) == (writes_like_locally(ca, cb) && writes_like_from(ca, cb, 0)));
        assert(writes_like_from(a, b, i) == (writes_like(ca, cb) && writes_like_from(a, b, i + 1)));
    }
}

/// An equal copy of a document.
fn copy_json(v: &Json) -> (r: Json)
    ensures
        r@ == v@,
        writes_like(*v, r),
    decreases v,
{
    match v {
        Json::Null => Json::Null,
        Json::Bool(b) => Json::Bool(*b),
        Json::Number(n) => Json::Number(n.copy()),
        Json::Str(s) => Json::Str(s.clone()),
        Json::Array(a) => {
            proof {
                lemma_array_view(*a);
            }
            let mut out: Vec<Json> = Vec::new();
            let mut i: usize = 0;
            while i < a.len()
                invariant
                    *v == Json::Array(*a),
                    v@ == JsonView::Array(elements_view(a@)),
                    i <= a.len(),
                    out@.len() == i,
                    forall|j: int| 0 <= j < i ==> #[trigger] out@[j]@ == a@[j]@,
                    forall|j: int| 0 <= j < i ==> #[trigger] writes_like(a@[j], out@[j]),
                decreases a.len() - i,
            {
                let c = copy_json(&a[i]);
                out.push(c);
                i = i + 1;
            }
            proof {
                lemma_array_view(out);
                lemma_array_view(*a);
                assert(elements_view(out@) =~= elements_view(a@));
            }
            let r = Json::Array(out);
            proof {
                lemma_writes_like_from(*v, r, 0);
                assert forall|j: int| 0 <= j < json_children(*v) implies #[trigger] writes_like(json_child(*v, j), json_child(r, j)) by {
                    assert(writes_like(a@[j], out@[j]));
                }
            }
            r
        },
        Json::Object(o) => {
            proof {
                lemma_object_view(*o);
            }
            let mut out: Vec<(String, Json)> = Vec::new();
            let mut i: usize = 0;
            while i < o.len()
                invariant
                    *v == Json::Object(*o),
                    v@ == JsonView::Object(entries_view(o@)),
                    i <= o.len(),
                    out@.len() == i,
                    forall|j: int| 0 <= j < i ==> #[trigger] entries_view(out@)[j] == entries_view(o@)[j],
                    forall|j: int| 0 <= j < i ==> #[trigger] writes_like(o@[j].1, out@[j].1),
                decreases o.len() - i,
            {
                let c = copy_json(&o[i].1);
                let ghost before = out@;
                out.push((o[i].0.clone(), c));
                assert forall|j: int| 0 <= j < i + 1 implies #[trigger] entries_view(out@)[j] == entries_view(o@)[j] by {
                    if j < i {
                        assert(out@[j] == before[j]);
                        assert(entries_view(before)[j] == entries_view(o@)[j]);
                    }
                }
                i = i + 1;
            }
            proof {
                lemma_object_view(out);
                lemma_object_view(*o);
                assert(entries_view(out@) =~= entries_view(o@));
            }
            let r = Json::Object(out);
            proof {
                lemma_writes_like_from(*v, r, 0);
                assert forall|j: int| 0 <= j < json_children(*v) implies #[trigger] writes_like(json_child(*v, j), json_child(r, j)) by {
                    assert(writes_like(o@[j].1, out@[j].1));
                }
            }
            r
        },
    }
}

/// A number's text as `==` of `serde_json` numbers compares it: the float
/// `-0.0` equals the float `0.0`; every other number is equal only to the
/// numbers written the same way (an integer never equals a float, and a float
/// is written in the shortest form that reads back as it).
pub open spec fn compared_number(t: Seq<char>) -> Seq<char> {
    if t == "-0.0"@ {
        "0.0"@
    } else {
        t
    }
}

/// A document as `==` of `serde_json` values compares it: every number as
/// `compared_number` gives it, everything else as it is.
pub open spec fn compared(v: JsonView) -> JsonView
    decreases v,
{
    match v {
        JsonView::Number(t) => JsonView::Number(compared_number(t)),
        JsonView::Array(a) => JsonView::Array(
            Seq::new(a.len(), |i: int| if 0 <= i < a.len() { compared(a[i]) } else { JsonView::Null }),
        ),
        JsonView::Object(e) => JsonView::Object(
            Seq::new(
                e.len(),
                |i: int|
                    if 0 <= i < e.len() {
                        (e[i].0, compared(e[i].1))
                    } else {
                        (Seq::<char>::empty(), JsonView::Null)
                    },
            ),
        ),
        _ => v,
    }
}

/// The entries of an object with each value as `compared` gives it.
pub open spec fn compared_entries(e: Entries) -> Entries {
    Seq::new(e.len(), |i: int| (e[i].0, compared(e[i].1)))
}

/// `compared` of an object compares its values.
pub proof fn lemma_compared_object(e: Entries)
    ensures
        compared(JsonView::Object(e)) == JsonView::Object(compared_entries(e)),
{
    assert(compared(JsonView::Object(e))->Object_0 =~= compared_entries(e));
}

/// The text of a float zero as `serde_json` writes it.
pub open spec fn zero_float(t: Seq<char>) -> bool {
    t == "0.0"@ || t == "-0.0"@
}

/// Two numbers compare equal exactly when they are written the same or both
/// are the float zero: in particular a negative number never equals its
/// absolute value.
pub proof fn law_number_equality(t: Seq<char>, u: Seq<char>)
    ensures
        (compared(JsonView::Number(t)) == compared(JsonView::Number(u))) <==> (t == u || (zero_float(t) && zero_float(u))),
{
    reveal_strlit("0.0");
    reveal_strlit("-0.0");
    assert("0.0"@ != "-0.0"@) by {
        assert("0.0"@.len() != "-0.0"@.len());
    }
}

/// Whether two documents are equal (`PartialEq` of `serde_json::Value`): the
/// same in every part, with numbers compared as `compared_number` says.
pub fn json_equal(a: &Json, b: &Json) -> (r: bool)
    ensures
        r == (compared(a@) == compared(b@)),
    decreases a,
{
    match (a, b) {
        (Json::Null, Json::Null) => true,
        (Json::Bool(x), Json::Bool(y)) => *x == *y,
        (Json::Number(x), Json::Number(y)) => {
            let zx = text_equal(x.text.as_str(), "0.0") || text_equal(x.text.as_str(), "-0.0");
            let zy = text_equal(y.text.as_str(), "0.0") || text_equal(y.text.as_str(), "-0.0");
            text_equal(x.text.as_str(), y.text.as_str()) || (zx && zy)
        },
        (Json::Str(x), Json::Str(y)) => text_equal(x.as_str(), y.as_str()),
        (Json::Array(x), Json::Array(y)) => {
            proof {
                lemma_array_view(*x);
                lemma_array_view(*y);
            }
            let ghost ca = compared(a@)->Array_0;
            let ghost cb = compared(b@)->Array_0;
            if x.len() != y.len() {
                assert(ca.len() != cb.len());
                return false;
            }
            let mut i: usize = 0;
            while i < x.len()
                invariant
                    *a == Json::Array(*x),
                    *b == Json::Array(*y),
                    a@ == JsonView::Array(elements_view(x@)),
                    b@ == JsonView::Array(elements_view(y@)),
                    ca == compared(a@)->Array_0,
                    cb == compared(b@)->Array_0,
                    x.len() == y.len(),
                    i <= x.len(),
                    forall|j: int| 0 <= j < i ==> #[trigger] compared(x@[j]@) == compared(y@[j]@),
                decreases x.len() - i,
            {
                if !json_equal(&x[i], &y[i]) {
                    assert(ca[i as int] == compared(x@[i as int]@));
                    assert(cb[i as int] == compared(y@[i as int]@));
                    return false;
                }
                i = i + 1;
            }
            assert(ca =~= cb) by {
                assert forall|j: int| 0 <= j < ca.len() implies ca[j] == cb[j] by {
                    assert(ca[j] == compared(x@[j]@));
                    assert(cb[j] == compared(y@[j]@));
                }
            }
            true
        },
        (Json::Object(x), Json::Object(y)) => {
            proof {
                lemma_object_view(*x);
                lemma_object_view(*y);
            }
            let ghost ex = entries_view(x@);
            let ghost ey = entries_view(y@);
            let ghost ca = compared(a@)->Object_0;
            let ghost cb = compared(b@)->Object_0;
            if x.len() != y.len() {
                assert(ca.len() != cb.len());
                return false;
            }
            let mut i: usize = 0;
            while i < x.len()
                invariant
                    *a == Json::Object(*x),
                    *b == Json::Object(*y),
                    a@ == JsonView::Object(ex),
                    b@ == JsonView::Object(ey),
                    ex == entries_view(x@),
                    ey == entries_view(y@),
                    ca == compared(a@)->Object_0,
                    cb == compared(b@)->Object_0,
                    x.len() == y.len(),
                    i <= x.len(),
                    forall|j: int| 0 <= j < i ==> #[trigger] ca[j] == cb[j],
                decreases x.len() - i,
            {
                assert(ca[i as int] == (x@[i as int].0@, compared(x@[i as int].1@)));
                assert(cb[i as int] == (y@[i as int].0@, compared(y@[i as int].1@)));
                if !text_equal(x[i].0.as_str(), y[i].0.as_str()) {
                    return false;
                }
                if !json_equal(&x[i].1, &y[i].1) {
                    return false;
                }
                i = i + 1;
            }
            assert(ca =~= cb);
            true
        },
        _ => false,
    }
}

/// The text of an integer as a `serde_json` integer number writes it: the
/// decimal digits of a `u64`, or a minus sign and those of a negative `i64`.
pub open spec fn integer_text(t: Seq<char>) -> bool {
    ||| exists|n: nat| n <= u64::MAX && t == decimal_text(n)
    ||| exists|n: nat| 1 <= n <= 0x8000_0000_0000_0000 && t == seq!['-'] + decimal_text(n)
}

impl Json {
    /// The object with the given keys and values, inserted in order into a map
    /// (as a `serde_json::Map` collects them): a later value wins where two
    /// keys meet.
    pub fn object_from(pairs: Vec<(String, Json)>) -> (r: Json)
        ensures
            r@ == JsonView::Object(entries_build(entries_view(pairs@))),
    {
        let ghost pv = entries_view(pairs@);
        let mut acc: Vec<(String, Json)> = Vec::new();
        let mut rest = pairs;
        let ghost mut i: int = 0;
        assert(entries_view(acc@) =~= entries_build(pv.take(0)));
        assert(entries_view(rest@) =~= pv.skip(0));
        while rest.len() > 0
            invariant
                0 <= i <= pv.len(),
                entries_view(rest@) == pv.skip(i),
                entries_view(acc@) == entries_build(pv.take(i)),
            decreases rest.len(),
        {
            let ghost before = rest@;
            let (k, v) = rest.remove(0);
            assert(entries_view(before)[0] == (k@, v@));
            assert(entries_view(rest@) =~= entries_view(before).drop_first());
            entries_insert(&mut acc, k, v);
            assert(pv.skip(i)[0] == pv[i]);
            assert(pv.take(i + 1).drop_last() =~= pv.take(i));
            assert(pv.skip(i).drop_first() =~= pv.skip(i + 1));
            proof {
                i = i + 1;
            }
        }
        assert(pv.take(i) =~= pv);
        proof {
            lemma_object_view(acc);
        }
        Json::Object(acc)
    }

    /// The string `s`.
    pub fn string(s: &str) -> (r: Json)
        ensures
            r@ == JsonView::Str(s@),
    {
        Json::Str(s.to_owned())
    }
}

} // verus!
