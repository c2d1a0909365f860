use vstd::prelude::*;

use crate::definition_parser::{id_term, max_terms, strictly_sorted, term_id, SchemaDefinitions};
use crate::json::{
    child, child_count, compared, compared_entries, lemma_compared_object, lemma_depth_children, lemma_integral_children, lemma_wf_children,
    elements_view, entries_build, entries_insert, entries_view, entry_insert, entry_lookup,
    keys_sorted, last_lookup, lemma_array_view, lemma_entries_build, lemma_lookup_index,
    lemma_lookup_none, lemma_lookup_some, lemma_object_view, lemma_sorted_entries_canonical, Entries,
    Json, JsonView,
};
use crate::text::{
    decimal_string, decimal_text, lemma_parse_decimal_text, lemma_text_lt_irreflexive, parse_u32,
    parse_u32_text, text_lt,
};

verus! {

/// A key in stored form: the decimal text of its id when it is a term.
pub open spec fn compress_key(terms: Seq<Seq<char>>, k: Seq<char>) -> Seq<char> {
    match term_id(terms, k) {
        Some(id) => decimal_text(id as nat),
        None => k,
    }
}

/// A key read back from stored form: the term whose id its text denotes, when
/// it denotes one.
pub open spec fn decompress_key(terms: Seq<Seq<char>>, k: Seq<char>) -> Seq<char> {
    match parse_u32_text(k) {
        Some(id) => match id_term(terms, id) {
            Some(t) => t,
            None => k,
        },
        None => k,
    }
}

/// A document with every object key changed by `f` when `stored` (compress) or
/// by the reading back when not (decompress), considering the first `n`
/// children of `v`.  Each changed object is built by inserting its changed
/// entries in order into an empty map, so a later entry wins where two keys
/// meet.
pub open spec fn convert_upto(terms: Seq<Seq<char>>, stored: bool, v: JsonView, n: int) -> JsonView
    decreases v, if 0 < n { n } else { 0 },
{
    match v {
        JsonView::Object(e) => if 0 < n <= e.len() {
            match convert_upto(terms, stored, v, n - 1) {
                JsonView::Object(acc) => JsonView::Object(
                    entry_insert(
                        acc,
                        if stored {
                            compress_key(terms, e[n - 1].0)
                        } else {
                            decompress_key(terms, e[n - 1].0)
                        },
                        convert_upto(terms, stored, e[n - 1].1, child_count(e[n - 1].1)),
                    ),
                ),
                _ => JsonView::Null,
            }
        } else {
            JsonView::Object(seq![])
        },
        JsonView::Array(a) => if 0 < n <= a.len() {
            match convert_upto(terms, stored, v, n - 1) {
                JsonView::Array(acc) => JsonView::Array(
                    acc.push(convert_upto(terms, stored, a[n - 1], child_count(a[n - 1]))),
                ),
                _ => JsonView::Null,
            }
        } else {
            JsonView::Array(seq![])
        },
        _ => v,
    }
}

/// The stored form of a document: every object key, at any depth, that is a
/// term replaced by the decimal text of its id.
pub open spec fn compress_value(terms: Seq<Seq<char>>, v: JsonView) -> JsonView {
    convert_upto(terms, true, v, child_count(v))
}

/// A document read back from stored form: every object key, at any depth,
/// whose text is the id of a term replaced by that term.
pub open spec fn decompress_value(terms: Seq<Seq<char>>, v: JsonView) -> JsonView {
    convert_upto(terms, false, v, child_count(v))
}

/// The stored form of a key (`id.to_string()` of its id when it is a term).
pub fn compress_key_exec(defs: &SchemaDefinitions, k: &String) -> (r: String)
    requires
        defs.wf(),
    ensures
        r@ == compress_key(defs@, k@),
{
    match defs.get_id(k.as_str()) {
        Some(id) => decimal_string(id as u64),
        None => k.clone(),
    }
}

/// A key read back from stored form.
pub fn decompress_key_exec(defs: &SchemaDefinitions, k: &String) -> (r: String)
    requires
        defs.wf(),
    ensures
        r@ == decompress_key(defs@, k@),
{
    match parse_u32(k.as_str()) {
        Some(id) => match defs.get_term(id) {
            Some(t) => t.clone(),
            None => k.clone(),
        },
        None => k.clone(),
    }
}

/// Converts every object key of a document, at any depth, to or from stored form.
pub fn convert_json(defs: &SchemaDefinitions, stored: bool, v: &Json) -> (r: Json)
    requires
        defs.wf(),
    ensures
        r@ == convert_upto(defs@, stored, v@, child_count(v@)),
    decreases v,
{
    match v {
        Json::Object(o) => {
            proof {
                lemma_object_view(*o);
            }
            let ghost e = entries_view(o@);
            let mut acc: Vec<(String, Json)> = Vec::new();
            let mut i: usize = 0;
            proof {
                lemma_object_view(acc);
                assert(entries_view(acc@) =~= seq![]);
            }
            while i < o.len()
                invariant
                    defs.wf(),
                    *v == Json::Object(*o),
                    v@ == JsonView::Object(e),
                    e == entries_view(o@),
                    i <= o.len(),
                    JsonView::Object(entries_view(acc@)) == convert_upto(defs@, stored, v@, i as int),
                decreases o.len() - i,
            {
                let key = if stored {
                    compress_key_exec(defs, &o[i].0)
                } else {
                    decompress_key_exec(defs, &o[i].0)
                };
                let val = convert_json(defs, stored, &o[i].1);
                entries_insert(&mut acc, key, val);
                i = i + 1;
            }
            proof {
                lemma_object_view(acc);
            }
            Json::Object(acc)
        },
        Json::Array(a) => {
            proof {
                lemma_array_view(*a);
            }
            let ghost e = elements_view(a@);
            let mut acc: Vec<Json> = Vec::new();
            let mut i: usize = 0;
            proof {
                assert(elements_view(acc@) =~= seq![]);
            }
            while i < a.len()
                invariant
                    defs.wf(),
                    *v == Json::Array(*a),
                    v@ == JsonView::Array(e),
                    e == elements_view(a@),
                    i <= a.len(),
                    JsonView::Array(elements_view(acc@)) == convert_upto(defs@, stored, v@, i as int),
                decreases a.len() - i,
            {
                let val = convert_json(defs, stored, &a[i]);
                let ghost before = acc@;
                acc.push(val);
                assert(elements_view(acc@) =~= elements_view(before).push(val@));
                i = i + 1;
            }
            proof {
                lemma_array_view(acc);
            }
            Json::Array(acc)
        },
        Json::Null => Json::Null,
        Json::Bool(b) => Json::Bool(*b),
        Json::Number(n) => Json::Number(n.copy()),
        Json::Str(s) => Json::Str(s.clone()),
    }
}

/// The stored form and the reading back of a key, by direction.
pub open spec fn convert_key(terms: Seq<Seq<char>>, stored: bool, k: Seq<char>) -> Seq<char> {
    if stored {
        compress_key(terms, k)
    } else {
        decompress_key(terms, k)
    }
}

/// A whole document converted to or from stored form.
pub open spec fn convert_value(terms: Seq<Seq<char>>, stored: bool, v: JsonView) -> JsonView {
    convert_upto(terms, stored, v, child_count(v))
}

/// The converted entries of an object, in the order of the object.
pub open spec fn converted_pairs(terms: Seq<Seq<char>>, stored: bool, e: Entries) -> Entries {
    Seq::new(
        e.len(),
        |j: int|
            if 0 <= j < e.len() {
                (convert_key(terms, stored, e[j].0), convert_value(terms, stored, e[j].1))
            } else {
                (Seq::empty(), JsonView::Null)
            },
    )
}

proof fn lemma_convert_object(terms: Seq<Seq<char>>, stored: bool, e: Entries, n: int)
    requires
        0 <= n <= e.len(),
    ensures
        convert_upto(terms, stored, JsonView::Object(e), n) == JsonView::Object(
            entries_build(converted_pairs(terms, stored, e).take(n)),
        ),
    decreases n,
{
    let l = converted_pairs(terms, stored, e);
    if n > 0 {
        lemma_convert_object(terms, stored, e, n - 1);
        assert(l.take(n).drop_last() =~= l.take(n - 1));
    } else {
        assert(l.take(0) =~= seq![]);
    }
}

proof fn lemma_convert_array(terms: Seq<Seq<char>>, stored: bool, a: Seq<JsonView>, n: int)
    requires
        0 <= n <= a.len(),
    ensures
        convert_upto(terms, stored, JsonView::Array(a), n) == JsonView::Array(
            Seq::new(n as nat, |j: int| convert_value(terms, stored, a[j])),
        ),
    decreases n,
{
    if n > 0 {
        lemma_convert_array(terms, stored, a, n - 1);
        let prev = Seq::new((n - 1) as nat, |j: int| convert_value(terms, stored, a[j]));
        assert(prev.push(convert_value(terms, stored, a[n - 1])) =~= Seq::new(
            n as nat,
            |j: int| convert_value(terms, stored, a[j]),
        ));
    } else {
        assert(Seq::new(0, |j: int| convert_value(terms, stored, a[j])) =~= seq![]);
    }
}

/// A pair that the last lookup finds is in the list.
pub proof fn lemma_last_lookup_some(l: Entries, k: Seq<char>)
    requires
        last_lookup(l, k) is Some,
    ensures
        exists|j: int| 0 <= j < l.len() && #[trigger] l[j] == (k, last_lookup(l, k)->0),
    decreases l.len(),
{
    if l.last().0 == k {
        assert(l[l.len() - 1] == (k, last_lookup(l, k)->0));
    } else {
        lemma_last_lookup_some(l.drop_last(), k);
        let j = choose|j: int| 0 <= j < l.drop_last().len() && #[trigger] l.drop_last()[j] == (k, last_lookup(l.drop_last(), k)->0);
        assert(l[j] == l.drop_last()[j]);
    }
}

/// In a list whose keys differ, the last lookup finds each pair, and nothing else.
pub proof fn lemma_last_lookup_distinct(l: Entries)
    requires
        forall|i: int, j: int| 0 <= i < j < l.len() ==> #[trigger] l[i].0 != #[trigger] l[j].0,
    ensures
        forall|j: int| 0 <= j < l.len() ==> last_lookup(l, #[trigger] l[j].0) == Some(l[j].1),
        forall|k: Seq<char>| (forall|j: int| 0 <= j < l.len() ==> #[trigger] l[j].0 != k) ==> last_lookup(l, k) is None,
    decreases l.len(),
{
    if l.len() > 0 {
        let d = l.drop_last();
        assert forall|i: int, j: int| 0 <= i < j < d.len() implies #[trigger] d[i].0 != #[trigger] d[j].0 by {
            assert(d[i] == l[i]);
            assert(d[j] == l[j]);
        }
        lemma_last_lookup_distinct(d);
        assert forall|j: int| 0 <= j < l.len() implies last_lookup(l, #[trigger] l[j].0) == Some(l[j].1) by {
            if j < l.len() - 1 {
                assert(d[j] == l[j]);
                assert(l[j].0 != l[l.len() - 1].0);
            }
        }
        assert forall|k: Seq<char>| (forall|j: int| 0 <= j < l.len() ==> #[trigger] l[j].0 != k) implies last_lookup(l, k) is None by {
            assert(l[l.len() - 1].0 != k);
            assert forall|j: int| 0 <= j < d.len() implies #[trigger] d[j].0 != k by {
                assert(d[j] == l[j]);
            }
            assert(last_lookup(d, k) is None);
            assert(last_lookup(l, k) == last_lookup(d, k));
        }
    }
}

/// The entries of a sorted object are found by lookup, and nothing else is.
proof fn lemma_sorted_lookups(e: Entries)
    requires
        keys_sorted(e),
    ensures
        forall|j: int| 0 <= j < e.len() ==> entry_lookup(e, #[trigger] e[j].0) == Some(e[j].1),
        forall|k: Seq<char>| (forall|j: int| 0 <= j < e.len() ==> #[trigger] e[j].0 != k) ==> entry_lookup(e, k) is None,
{
    assert forall|j: int| 0 <= j < e.len() implies entry_lookup(e, #[trigger] e[j].0) == Some(e[j].1) by {
        lemma_lookup_index(e, j);
    }
    assert forall|k: Seq<char>| (forall|j: int| 0 <= j < e.len() ==> #[trigger] e[j].0 != k) implies entry_lookup(e, k) is None by {
        lemma_lookup_none(e, k);
    }
}

/// Converted documents are well-formed: every object is rebuilt in key order.
pub proof fn lemma_convert_wf(terms: Seq<Seq<char>>, stored: bool, v: JsonView)
    ensures
        convert_value(terms, stored, v).wf(),
    decreases v,
{
    match v {
        JsonView::Object(e) => {
            let l = converted_pairs(terms, stored, e);
            lemma_convert_object(terms, stored, e, e.len() as int);
            assert(l.take(e.len() as int) =~= l);
            let c = entries_build(l);
            lemma_entries_build(l);
            assert(convert_value(terms, stored, v) == JsonView::Object(c));
            assert(keys_sorted(c));
            assert forall|m: int| 0 <= m < c.len() implies #[trigger] c[m].1.wf() by {
                lemma_lookup_index(c, m);
                lemma_last_lookup_some(l, c[m].0);
                let j = choose|j: int| 0 <= j < l.len() && #[trigger] l[j] == (c[m].0, last_lookup(l, c[m].0)->0);
                lemma_convert_wf(terms, stored, e[j].1);
                assert(c[m].1 == l[j].1);
            }
            lemma_wf_children(JsonView::Object(c));
            assert(forall|m: int| 0 <= m < c.len() ==> child(JsonView::Object(c), m) == c[m].1);
        },
        JsonView::Array(a) => {
            lemma_convert_array(terms, stored, a, a.len() as int);
            let r = Seq::new(a.len(), |j: int| convert_value(terms, stored, a[j]));
            assert forall|j: int| 0 <= j < a.len() implies #[trigger] r[j].wf() by {
                lemma_convert_wf(terms, stored, a[j]);
            }
            lemma_wf_children(JsonView::Array(r));
            assert(forall|m: int| 0 <= m < r.len() ==> child(JsonView::Array(r), m) == r[m]);
        },
        _ => {},
    }
}

/// A key reads back as itself after storing: it is a term, or its text is
/// not the id of a term.
pub open spec fn key_unambiguous(terms: Seq<Seq<char>>, k: Seq<char>) -> bool {
    terms.contains(k) || !(parse_u32_text(k) matches Some(id) && id < terms.len())
}

/// Every object key among the children of `v` from the `i`-th on, at any
/// depth, is unambiguous.
pub open spec fn unambiguous_from(terms: Seq<Seq<char>>, v: JsonView, i: int) -> bool
    decreases v, if 0 <= i < child_count(v) { child_count(v) - i } else { 0 },
{
    if 0 <= i < child_count(v) {
        match v {
            JsonView::Object(e) => key_unambiguous(terms, e[i].0) && unambiguous_from(terms, e[i].1, 0)
                && unambiguous_from(terms, v, i + 1),
            JsonView::Array(a) => unambiguous_from(terms, a[i], 0) && unambiguous_from(terms, v, i + 1),
            _ => true,
        }
    } else {
        true
    }
}

/// Every object key of the document, at any depth, is unambiguous.
pub open spec fn keys_unambiguous(terms: Seq<Seq<char>>, v: JsonView) -> bool {
    unambiguous_from(terms, v, 0)
}

proof fn lemma_unambiguous_from(terms: Seq<Seq<char>>, v: JsonView, i: int)
    requires
        0 <= i,
    ensures
        unambiguous_from(terms, v, i) <==> (forall|j: int| i <= j < child_count(v) ==> #[trigger] keys_unambiguous(terms, child(v, j)))
            && (v is Object ==> forall|j: int| i <= j < child_count(v) ==> key_unambiguous(terms, #[trigger] v->Object_0[j].0)),
    decreases if i < child_count(v) { child_count(v) - i } else { 0 },
{
    if i < child_count(v) {
        lemma_unambiguous_from(terms, v, i + 1);
        match v {
            JsonView::Object(e) => {
                assert(keys_unambiguous(terms, child(v, i)) == unambiguous_from(terms, e[i].1, 0));
            },
            JsonView::Array(a) => {
                assert(keys_unambiguous(terms, child(v, i)) == unambiguous_from(terms, a[i], 0));
            },
            _ => {},
        }
    }
}

/// The id of a term, in sorted terms, is its position.
proof fn lemma_term_id_position(terms: Seq<Seq<char>>, t: Seq<char>)
    requires
        strictly_sorted(terms),
        terms.len() <= max_terms(),
        terms.contains(t),
    ensures
        term_id(terms, t) matches Some(id) && id < terms.len() && terms[id as int] == t,
{
    let k = terms.index_of(t);
    assert(0 <= k < terms.len() && terms[k] == t);
}

/// Storing then reading back a key gives the key, when it is unambiguous.
proof fn lemma_key_round_trip(terms: Seq<Seq<char>>, k: Seq<char>)
    requires
        strictly_sorted(terms),
        terms.len() <= max_terms(),
        key_unambiguous(terms, k),
    ensures
        decompress_key(terms, compress_key(terms, k)) == k,
{
    if terms.contains(k) {
        lemma_term_id_position(terms, k);
        let id = term_id(terms, k)->0;
        lemma_parse_decimal_text(id);
    }
}

/// Unambiguous keys have different stored forms.
pub proof fn lemma_compress_key_injective(terms: Seq<Seq<char>>, a: Seq<char>, b: Seq<char>)
    requires
        strictly_sorted(terms),
        terms.len() <= max_terms(),
        key_unambiguous(terms, a),
        key_unambiguous(terms, b),
        compress_key(terms, a) == compress_key(terms, b),
    ensures
        a == b,
{
    lemma_key_round_trip(terms, a);
    lemma_key_round_trip(terms, b);
}

/// The entries of the stored form of an object, and of its reading back.
proof fn lemma_object_round_trip(terms: Seq<Seq<char>>, e: Entries)
    requires
        strictly_sorted(terms),
        terms.len() <= max_terms(),
        keys_sorted(e),
        forall|j: int| 0 <= j < e.len() ==> key_unambiguous(terms, #[trigger] e[j].0),
        forall|j: int| 0 <= j < e.len() ==> decompress_value(terms, compress_value(terms, #[trigger] e[j].1)) == e[j].1,
    ensures
        entries_build(converted_pairs(terms, false, entries_build(converted_pairs(terms, true, e)))) == e,
{
    let l = converted_pairs(terms, true, e);
    let c = entries_build(l);
    // the stored keys differ
    assert forall|i: int, j: int| 0 <= i < j < l.len() implies #[trigger] l[i].0 != #[trigger] l[j].0 by {
        lemma_text_lt_irreflexive(e[i].0);
        assert(text_lt(e[i].0, e[j].0));
        if l[i].0 == l[j].0 {
            lemma_compress_key_injective(terms, e[i].0, e[j].0);
        }
    }
    lemma_last_lookup_distinct(l);
    lemma_entries_build(l);
    let mm = converted_pairs(terms, false, c);
    let d = entries_build(mm);
    // each read-back entry is an entry of the document
    assert forall|m: int| 0 <= m < mm.len() implies exists|j: int| 0 <= j < e.len() && #[trigger] e[j] == #[trigger] mm[m] && l[j] == c[m] by {
        lemma_lookup_index(c, m);
        lemma_last_lookup_some(l, c[m].0);
        let j = choose|j: int| 0 <= j < l.len() && #[trigger] l[j] == (c[m].0, last_lookup(l, c[m].0)->0);
        lemma_key_round_trip(terms, e[j].0);
        assert(e[j] == mm[m]);
    }
    lemma_object_round_trip_lookups(terms, e, l, c, mm);
    lemma_entries_build(mm);
    lemma_sorted_lookups(e);
    lemma_sorted_entries_canonical(d, e);
}

proof fn lemma_object_round_trip_lookups(terms: Seq<Seq<char>>, e: Entries, l: Entries, c: Entries, mm: Entries)
    requires
        keys_sorted(e),
        keys_sorted(c),
        l.len() == e.len(),
        mm.len() == c.len(),
        forall|i: int, j: int| 0 <= i < j < l.len() ==> #[trigger] l[i].0 != #[trigger] l[j].0,
        forall|k: Seq<char>| #[trigger] entry_lookup(c, k) == last_lookup(l, k),
        forall|j: int| 0 <= j < l.len() ==> last_lookup(l, #[trigger] l[j].0) == Some(l[j].1),
        forall|m: int| 0 <= m < mm.len() ==> exists|j: int| 0 <= j < e.len() && #[trigger] e[j] == #[trigger] mm[m] && l[j] == c[m],
    ensures
        forall|x: Seq<char>| last_lookup(mm, x) == #[trigger] entry_lookup(e, x),
{
    lemma_sorted_lookups(e);
    assert forall|i: int, j: int| 0 <= i < j < mm.len() implies #[trigger] mm[i].0 != #[trigger] mm[j].0 by {
        let ji = choose|x: int| 0 <= x < e.len() && #[trigger] e[x] == mm[i] && l[x] == c[i];
        let jj = choose|x: int| 0 <= x < e.len() && #[trigger] e[x] == mm[j] && l[x] == c[j];
        assert(text_lt(c[i].0, c[j].0));
        lemma_text_lt_irreflexive(c[i].0);
        if mm[i].0 == mm[j].0 {
            if ji < jj {
                assert(text_lt(e[ji].0, e[jj].0));
                lemma_text_lt_irreflexive(e[ji].0);
            } else if jj < ji {
                assert(text_lt(e[jj].0, e[ji].0));
                lemma_text_lt_irreflexive(e[jj].0);
            }
        }
    }
    lemma_last_lookup_distinct(mm);
    assert forall|x: Seq<char>| last_lookup(mm, x) == #[trigger] entry_lookup(e, x) by {
        if exists|j: int| 0 <= j < e.len() && #[trigger] e[j].0 == x {
            let j = choose|j: int| 0 <= j < e.len() && #[trigger] e[j].0 == x;
            assert(entry_lookup(c, l[j].0) == Some(l[j].1));
            lemma_lookup_some(c, l[j].0);
            let m = choose|m: int| 0 <= m < c.len() && c[m].0 == l[j].0 && entry_lookup(c, l[j].0) == Some(#[trigger] c[m].1);
            let j2 = choose|y: int| 0 <= y < e.len() && #[trigger] e[y] == mm[m] && l[y] == c[m];
            if j2 < j {
                assert(l[j2].0 != l[j].0);
            } else if j < j2 {
                assert(l[j].0 != l[j2].0);
            }
            assert(mm[m] == e[j]);
            assert(last_lookup(mm, mm[m].0) == Some(mm[m].1));
        } else {
            assert forall|m: int| 0 <= m < mm.len() implies #[trigger] mm[m].0 != x by {
                let j2 = choose|y: int| 0 <= y < e.len() && #[trigger] e[y] == mm[m] && l[y] == c[m];
                assert(e[j2].0 != x);
            }
        }
    }
}

/// Reading back the stored form of a document gives the document, when it is
/// well-formed and its keys are unambiguous.
pub proof fn law_decompress_undoes_compress(terms: Seq<Seq<char>>, v: JsonView)
    requires
        strictly_sorted(terms),
        terms.len() <= max_terms(),
        v.wf(),
        keys_unambiguous(terms, v),
    ensures
        decompress_value(terms, compress_value(terms, v)) == v,
    decreases v,
{
    lemma_wf_children(v);
    lemma_unambiguous_from(terms, v, 0);
    match v {
        JsonView::Object(e) => {
            assert forall|j: int| 0 <= j < e.len() implies decompress_value(terms, compress_value(terms, #[trigger] e[j].1)) == e[j].1 && key_unambiguous(terms, e[j].0) by {
                assert(child(v, j) == e[j].1);
                law_decompress_undoes_compress(terms, e[j].1);
            }
            let l = converted_pairs(terms, true, e);
            lemma_convert_object(terms, true, e, e.len() as int);
            assert(l.take(e.len() as int) =~= l);
            let c = entries_build(l);
            assert(compress_value(terms, v) == JsonView::Object(c));
            let mm = converted_pairs(terms, false, c);
            lemma_convert_object(terms, false, c, c.len() as int);
            assert(mm.take(c.len() as int) =~= mm);
            assert(decompress_value(terms, JsonView::Object(c)) == JsonView::Object(entries_build(mm)));
            lemma_object_round_trip(terms, e);
        },
        JsonView::Array(a) => {
            lemma_convert_array(terms, true, a, a.len() as int);
            let r1 = Seq::new(a.len(), |j: int| convert_value(terms, true, a[j]));
            assert(compress_value(terms, v) == JsonView::Array(r1));
            lemma_convert_array(terms, false, r1, r1.len() as int);
            let r2 = Seq::new(r1.len(), |j: int| convert_value(terms, false, r1[j]));
            assert(decompress_value(terms, JsonView::Array(r1)) == JsonView::Array(r2));
            assert forall|j: int| 0 <= j < a.len() implies #[trigger] r2[j] == a[j] by {
                assert(child(v, j) == a[j]);
                law_decompress_undoes_compress(terms, a[j]);
            }
            assert(r2 =~= a);
        },
        _ => {},
    }
}

/// Well-formed documents with unambiguous keys have different stored forms.
pub proof fn lemma_compress_injective(terms: Seq<Seq<char>>, a: JsonView, b: JsonView)
    requires
        strictly_sorted(terms),
        terms.len() <= max_terms(),
        a.wf(),
        b.wf(),
        keys_unambiguous(terms, a),
        keys_unambiguous(terms, b),
        compress_value(terms, a) == compress_value(terms, b),
    ensures
        a == b,
{
    law_decompress_undoes_compress(terms, a);
    law_decompress_undoes_compress(terms, b);
}

/// A lookup in the stored form of an object finds the stored form of what a
/// lookup of the key finds in the object, when the object is well-formed and
/// its keys and the key are unambiguous; and what the lookup in the object
/// finds is well-formed with unambiguous keys.
pub proof fn lemma_stored_lookup(terms: Seq<Seq<char>>, doc: Entries, k: Seq<char>)
    requires
        strictly_sorted(terms),
        terms.len() <= max_terms(),
        JsonView::Object(doc).wf(),
        keys_unambiguous(terms, JsonView::Object(doc)),
        key_unambiguous(terms, k),
    ensures
        compress_value(terms, JsonView::Object(doc)) == JsonView::Object(entries_build(converted_pairs(terms, true, doc))),
        entry_lookup(entries_build(converted_pairs(terms, true, doc)), compress_key(terms, k)) == match entry_lookup(doc, k) {
            Some(v) => Some(compress_value(terms, v)),
            None => None,
        },
        entry_lookup(doc, k) matches Some(v) ==> v.wf() && keys_unambiguous(terms, v),
{
    let v = JsonView::Object(doc);
    lemma_wf_children(v);
    lemma_unambiguous_from(terms, v, 0);
    let l = converted_pairs(terms, true, doc);
    lemma_convert_object(terms, true, doc, doc.len() as int);
    assert(l.take(doc.len() as int) =~= l);
    assert forall|i: int, j: int| 0 <= i < j < l.len() implies #[trigger] l[i].0 != #[trigger] l[j].0 by {
        lemma_text_lt_irreflexive(doc[i].0);
        assert(text_lt(doc[i].0, doc[j].0));
        assert(key_unambiguous(terms, v->Object_0[i].0));
        assert(key_unambiguous(terms, v->Object_0[j].0));
        if l[i].0 == l[j].0 {
            lemma_compress_key_injective(terms, doc[i].0, doc[j].0);
        }
    }
    lemma_last_lookup_distinct(l);
    lemma_entries_build(l);
    lemma_sorted_lookups(doc);
    if exists|j: int| 0 <= j < doc.len() && #[trigger] doc[j].0 == k {
        let j = choose|j: int| 0 <= j < doc.len() && #[trigger] doc[j].0 == k;
        assert(entry_lookup(doc, k) == Some(doc[j].1));
        assert(l[j].0 == compress_key(terms, k));
        assert(child(v, j) == doc[j].1);
        assert(keys_unambiguous(terms, child(v, j)));
    } else {
        assert forall|j: int| 0 <= j < l.len() implies #[trigger] l[j].0 != compress_key(terms, k) by {
            assert(key_unambiguous(terms, v->Object_0[j].0));
            if l[j].0 == compress_key(terms, k) {
                lemma_compress_key_injective(terms, doc[j].0, k);
            }
        }
        assert(last_lookup(l, compress_key(terms, k)) is None);
    }
}

/// Inserting into an object and comparing its values commute.
proof fn lemma_compared_entry_insert(e: Entries, k: Seq<char>, v: JsonView)
    ensures
        entry_insert(compared_entries(e), k, compared(v)) == compared_entries(entry_insert(e, k, v)),
    decreases e.len(),
{
    let ce = compared_entries(e);
    if e.len() == 0 {
        assert(compared_entries(entry_insert(e, k, v)) =~= seq![(k, compared(v))]);
    } else if e[0].0 == k {
        assert(compared_entries(entry_insert(e, k, v)) =~= ce.update(0, (k, compared(v))));
    } else if text_lt(k, e[0].0) {
        assert(compared_entries(entry_insert(e, k, v)) =~= seq![(k, compared(v))] + ce);
    } else {
        lemma_compared_entry_insert(e.drop_first(), k, v);
        assert(ce.drop_first() =~= compared_entries(e.drop_first()));
        assert(compared_entries(entry_insert(e, k, v)) =~= seq![ce[0]] + compared_entries(entry_insert(e.drop_first(), k, v)));
    }
}

/// Building an object and comparing its values commute.
proof fn lemma_compared_build(l: Entries)
    ensures
        entries_build(compared_entries(l)) == compared_entries(entries_build(l)),
    decreases l.len(),
{
    if l.len() == 0 {
        assert(compared_entries(entries_build(l)) =~= seq![]);
    } else {
        lemma_compared_build(l.drop_last());
        assert(compared_entries(l).drop_last() =~= compared_entries(l.drop_last()));
        lemma_compared_entry_insert(entries_build(l.drop_last()), l.last().0, l.last().1);
    }
}

/// Converting keys and comparing numbers commute: they change different parts.
pub proof fn lemma_compared_convert(terms: Seq<Seq<char>>, stored: bool, v: JsonView)
    ensures
        compared(convert_value(terms, stored, v)) == convert_value(terms, stored, compared(v)),
    decreases v,
{
    match v {
        JsonView::Object(e) => {
            let l = converted_pairs(terms, stored, e);
            lemma_convert_object(terms, stored, e, e.len() as int);
            assert(l.take(e.len() as int) =~= l);
            lemma_compared_object(entries_build(l));
            lemma_compared_build(l);
            let ce = compared_entries(e);
            lemma_compared_object(e);
            lemma_convert_object(terms, stored, ce, ce.len() as int);
            let l2 = converted_pairs(terms, stored, ce);
            assert(l2.take(ce.len() as int) =~= l2);
            assert forall|j: int| 0 <= j < e.len() implies #[trigger] l2[j] == compared_entries(l)[j] by {
                lemma_compared_convert(terms, stored, e[j].1);
            }
            assert(l2 =~= compared_entries(l));
        },
        JsonView::Array(a) => {
            lemma_convert_array(terms, stored, a, a.len() as int);
            let r = Seq::new(a.len(), |j: int| convert_value(terms, stored, a[j]));
            let ca = compared(v)->Array_0;
            lemma_convert_array(terms, stored, ca, ca.len() as int);
            let r2 = Seq::new(ca.len(), |j: int| convert_value(terms, stored, ca[j]));
            let cr = compared(JsonView::Array(r))->Array_0;
            assert forall|j: int| 0 <= j < a.len() implies #[trigger] cr[j] == r2[j] by {
                assert(ca[j] == compared(a[j]));
                assert(cr[j] == compared(r[j]));
                lemma_compared_convert(terms, stored, a[j]);
            }
            assert(cr =~= r2);
        },
        _ => {},
    }
}

/// Comparing numbers keeps a document well-formed and its keys unambiguous:
/// it changes no key.
pub proof fn lemma_compared_keeps_keys(terms: Seq<Seq<char>>, v: JsonView)
    ensures
        v.wf() ==> compared(v).wf(),
        keys_unambiguous(terms, v) ==> keys_unambiguous(terms, compared(v)),
    decreases v,
{
    let c = compared(v);
    lemma_wf_children(v);
    lemma_wf_children(c);
    lemma_unambiguous_from(terms, v, 0);
    lemma_unambiguous_from(terms, c, 0);
    assert forall|j: int| 0 <= j < child_count(v) implies #[trigger] child(c, j) == compared(child(v, j)) by {}
    assert forall|j: int| 0 <= j < child_count(v) implies (child(v, j).wf() ==> #[trigger] child(c, j).wf())
        && (keys_unambiguous(terms, child(v, j)) ==> keys_unambiguous(terms, child(c, j))) by {
        lemma_compared_keeps_keys(terms, child(v, j));
    }
    if keys_unambiguous(terms, v) {
        assert forall|j: int| 0 <= j < child_count(c) implies #[trigger] keys_unambiguous(terms, child(c, j)) by {
            assert(keys_unambiguous(terms, child(v, j)));
            lemma_compared_keeps_keys(terms, child(v, j));
        }
    }
    match v {
        JsonView::Object(e) => {
            if keys_unambiguous(terms, v) {
                assert forall|j: int| 0 <= j < e.len() implies key_unambiguous(terms, #[trigger] c->Object_0[j].0) by {
                    assert(c->Object_0[j].0 == e[j].0);
                    assert(key_unambiguous(terms, v->Object_0[j].0));
                }
            }
            assert forall|i: int, j: int| 0 <= i < j < e.len() implies text_lt(
                #[trigger] c->Object_0[i].0,
                #[trigger] c->Object_0[j].0,
            ) == text_lt(e[i].0, e[j].0) by {
                assert(c->Object_0[i].0 == e[i].0);
                assert(c->Object_0[j].0 == e[j].0);
            }
        },
        _ => {},
    }
}

/// The stored forms of two well-formed documents with unambiguous keys compare
/// equal exactly when the documents do.
pub proof fn lemma_compared_stored_forms(terms: Seq<Seq<char>>, a: JsonView, b: JsonView)
    requires
        strictly_sorted(terms),
        terms.len() <= max_terms(),
        a.wf(),
        b.wf(),
        keys_unambiguous(terms, a),
        keys_unambiguous(terms, b),
    ensures
        (compared(compress_value(terms, a)) == compared(compress_value(terms, b))) <==> (compared(a) == compared(b)),
{
    lemma_compared_convert(terms, true, a);
    lemma_compared_convert(terms, true, b);
    lemma_compared_keeps_keys(terms, a);
    lemma_compared_keeps_keys(terms, b);
    if compared(compress_value(terms, a)) == compared(compress_value(terms, b)) {
        lemma_compress_injective(terms, compared(a), compared(b));
    }
}

/// Converting keys keeps arrays and objects where they are, so a document
/// nests no deeper after conversion.
pub proof fn lemma_convert_depth(terms: Seq<Seq<char>>, stored: bool, v: JsonView, n: nat)
    requires
        v.depth_within(n),
    ensures
        convert_value(terms, stored, v).depth_within(n),
    decreases v,
{
    lemma_depth_children(v, n);
    match v {
        JsonView::Object(e) => {
            let l = converted_pairs(terms, stored, e);
            lemma_convert_object(terms, stored, e, e.len() as int);
            assert(l.take(e.len() as int) =~= l);
            let c = entries_build(l);
            lemma_entries_build(l);
            assert forall|m: int| 0 <= m < c.len() implies #[trigger] c[m].1.depth_within((n - 1) as nat) by {
                lemma_lookup_index(c, m);
                lemma_last_lookup_some(l, c[m].0);
                let j = choose|j: int| 0 <= j < l.len() && #[trigger] l[j] == (c[m].0, last_lookup(l, c[m].0)->0);
                assert(child(v, j) == e[j].1);
                lemma_convert_depth(terms, stored, e[j].1, (n - 1) as nat);
                assert(c[m].1 == l[j].1);
            }
            lemma_depth_children(JsonView::Object(c), n);
            assert(forall|m: int| 0 <= m < c.len() ==> child(JsonView::Object(c), m) == c[m].1);
        },
        JsonView::Array(a) => {
            lemma_convert_array(terms, stored, a, a.len() as int);
            let r = Seq::new(a.len(), |j: int| convert_value(terms, stored, a[j]));
            assert forall|j: int| 0 <= j < a.len() implies #[trigger] r[j].depth_within((n - 1) as nat) by {
                assert(child(v, j) == a[j]);
                lemma_convert_depth(terms, stored, a[j], (n - 1) as nat);
            }
            lemma_depth_children(JsonView::Array(r), n);
            assert(forall|m: int| 0 <= m < r.len() ==> child(JsonView::Array(r), m) == r[m]);
        },
        _ => {},
    }
}

/// Converting keys keeps every number of a document as it is, so integral
/// documents stay integral.
pub proof fn lemma_convert_integral(terms: Seq<Seq<char>>, stored: bool, v: JsonView)
    requires
        v.integral(),
    ensures
        convert_value(terms, stored, v).integral(),
    decreases v,
{
    lemma_integral_children(v);
    match v {
        JsonView::Object(e) => {
            let l = converted_pairs(terms, stored, e);
            lemma_convert_object(terms, stored, e, e.len() as int);
            assert(l.take(e.len() as int) =~= l);
            let c = entries_build(l);
            lemma_entries_build(l);
            assert forall|m: int| 0 <= m < c.len() implies #[trigger] c[m].1.integral() by {
                lemma_lookup_index(c, m);
                lemma_last_lookup_some(l, c[m].0);
                let j = choose|j: int| 0 <= j < l.len() && #[trigger] l[j] == (c[m].0, last_lookup(l, c[m].0)->0);
                assert(child(v, j) == e[j].1);
                lemma_convert_integral(terms, stored, e[j].1);
                assert(c[m].1 == l[j].1);
            }
            lemma_integral_children(JsonView::Object(c));
            assert(forall|m: int| 0 <= m < c.len() ==> child(JsonView::Object(c), m) == c[m].1);
        },
        JsonView::Array(a) => {
            lemma_convert_array(terms, stored, a, a.len() as int);
            let r = Seq::new(a.len(), |j: int| convert_value(terms, stored, a[j]));
            assert forall|j: int| 0 <= j < a.len() implies #[trigger] r[j].integral() by {
                assert(child(v, j) == a[j]);
                lemma_convert_integral(terms, stored, a[j]);
            }
            lemma_integral_children(JsonView::Array(r));
            assert(forall|m: int| 0 <= m < r.len() ==> child(JsonView::Array(r), m) == r[m]);
        },
        _ => {},
    }
}

} // verus!
