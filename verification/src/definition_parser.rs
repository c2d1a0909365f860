use vstd::prelude::*;

use crate::encoding::{json_error_message, json_text_value, read_json_text};
use crate::json::{lemma_array_view, Json, JsonView};
use crate::text::{
    chars_match_at, chars_of, string_of_chars, string_of_chars_from, lemma_text_lt_asymmetric, lemma_text_lt_irreflexive, lemma_text_lt_total,
    lemma_text_lt_transitive, text_equal, text_less, text_lt,
};

verus! {

/// The texts of a sequence of strings.
pub open spec fn texts_view(v: Seq<String>) -> Seq<Seq<char>> {
    Seq::new(v.len(), |i: int| if 0 <= i < v.len() { v[i]@ } else { Seq::empty() })
}

/// Texts in strictly increasing order.
pub open spec fn strictly_sorted(s: Seq<Seq<char>>) -> bool {
    forall|i: int, j: int| 0 <= i < j < s.len() ==> text_lt(#[trigger] s[i], #[trigger] s[j])
}

/// `s` begins with `p`.
pub open spec fn starts_with(s: Seq<char>, p: Seq<char>) -> bool {
    p.len() <= s.len() && s.take(p.len() as int) == p
}

/// What `str::trim_start_matches` leaves of `s`: `p` taken off the front for as
/// long as `s` begins with it.
pub open spec fn trim_prefix_all(s: Seq<char>, p: Seq<char>) -> Seq<char>
    decreases s.len(),
{
    if p.len() > 0 && starts_with(s, p) {
        trim_prefix_all(s.skip(p.len() as int), p)
    } else {
        s
    }
}

/// The namespace of schema.org terms.
pub open spec fn schema_prefix() -> Seq<char> {
    "https://schema.org/"@
}

/// The term that a `@graph` item defines: its `@id` string with the
/// schema.org namespace taken off, when it is in that namespace and something
/// is left.
pub open spec fn item_term(item: JsonView) -> Option<Seq<char>> {
    match item.get_key("@id"@) {
        Some(JsonView::Str(id)) => if starts_with(id, schema_prefix()) {
            let t = trim_prefix_all(id, schema_prefix());
            if t.len() > 0 {
                Some(t)
            } else {
                None
            }
        } else {
            None
        },
        _ => None,
    }
}

/// The items of the `@graph` array of a JSON-LD document; none when there is no
/// such array.
pub open spec fn graph_items(root: JsonView) -> Seq<JsonView> {
    match root.get_key("@graph"@) {
        Some(JsonView::Array(items)) => items,
        _ => seq![],
    }
}

/// The JSON-LD keywords that are always terms.
pub open spec fn keyword_terms() -> Set<Seq<char>> {
    set!["@type"@, "@id"@, "@context"@, "@value"@, "@language"@]
}

/// The terms that a JSON-LD document defines.
pub open spec fn document_terms(root: JsonView) -> Set<Seq<char>> {
    keyword_terms().union(
        Set::new(
            |t: Seq<char>|
                exists|i: int|
                    0 <= i < graph_items(root).len() && #[trigger] item_term(graph_items(root)[i])
                        == Some(t),
        ),
    )
}

/// The id of a term: its position among the terms in sorted order.
pub open spec fn term_id(terms: Seq<Seq<char>>, t: Seq<char>) -> Option<u32> {
    if terms.contains(t) {
        Some(terms.index_of(t) as u32)
    } else {
        None
    }
}

/// The term that has the given id.
pub open spec fn id_term(terms: Seq<Seq<char>>, id: u32) -> Option<Seq<char>> {
    if id < terms.len() {
        Some(terms[id as int])
    } else {
        None
    }
}

/// The most terms that `u32` ids can number.
pub open spec fn max_terms() -> nat {
    u32::MAX as nat + 1
}

/// Why a set of definitions could not be made.
#[derive(Debug)]
pub enum DefinitionError {
    /// The text is not JSON; the message says why.
    InvalidJson(String),
    /// More terms than `u32` ids can number.
    TooManyTerms,
}

/// The terms of the schema.org vocabulary, each with a numeric id.
#[derive(Debug)]
pub struct SchemaDefinitions {
    terms: Vec<String>,
}

impl View for SchemaDefinitions {
    type V = Seq<Seq<char>>;

    /// The terms, in increasing order; a term's id is its position.
    closed spec fn view(&self) -> Seq<Seq<char>> {
        texts_view(self.terms@)
    }
}

impl SchemaDefinitions {
    /// The terms are in strictly increasing order and there are no more than
    /// `u32` ids can number.
    pub open spec fn wf(&self) -> bool {
        strictly_sorted(self@) && self@.len() <= max_terms()
    }

    /// Whether `term` is a term of the vocabulary.
    pub fn is_valid_term(&self, term: &str) -> (r: bool)
        requires
            self.wf(),
        ensures
            r == self@.contains(term@),
    {
        let mut i: usize = 0;
        while i < self.terms.len()
            invariant
                i <= self.terms.len(),
                forall|j: int| 0 <= j < i ==> #[trigger] self@[j] != term@,
            decreases self.terms.len() - i,
        {
            if text_equal(self.terms[i].as_str(), term) {
                assert(self@[i as int] == term@);
                return true;
            }
            i = i + 1;
        }
        false
    }

    /// The id of `term`, if it is a term.
    pub fn get_id(&self, term: &str) -> (r: Option<u32>)
        requires
            self.wf(),
        ensures
            r == term_id(self@, term@),
    {
        let mut i: usize = 0;
        while i < self.terms.len()
            invariant
                i <= self.terms.len(),
                self.wf(),
                forall|j: int| 0 <= j < i ==> #[trigger] self@[j] != term@,
            decreases self.terms.len() - i,
        {
            if text_equal(self.terms[i].as_str(), term) {
                assert(self@[i as int] == term@);
                proof {
                    assert(self@.index_of(term@) == i) by {
                        assert(self@.contains(term@));
                        let k = self@.index_of(term@);
                        assert(self@[k] == term@);
                        lemma_text_lt_irreflexive(term@);
                        if k < i {
                            assert(text_lt(self@[k], self@[i as int]));
                        }
                        if k > i {
                            assert(text_lt(self@[i as int], self@[k]));
                        }
                    }
                }
                return Some(i as u32);
            }
            i = i + 1;
        }
        None
    }

    /// The term whose id is `id`, if there is one.
    pub fn get_term(&self, id: u32) -> (r: Option<&String>)
        requires
            self.wf(),
        ensures
            match r {
                Some(s) => id_term(self@, id) == Some(s@),
                None => id_term(self@, id) is None,
            },
    {
        if (id as usize) < self.terms.len() {
            Some(&self.terms[id as usize])
        } else {
            None
        }
    }
}

/// Inserts a text into strictly sorted texts, unless it is there already.
fn insert_sorted_text(terms: &mut Vec<String>, t: String)
    requires
        strictly_sorted(texts_view(old(terms)@)),
    ensures
        strictly_sorted(texts_view(final(terms)@)),
        texts_view(final(terms)@).to_set() == texts_view(old(terms)@).to_set().insert(t@),
{
    let ghost old_v = texts_view(terms@);
    let mut i: usize = 0;
    while i < terms.len()
        invariant
            old_v == texts_view(terms@),
            old_v == texts_view(old(terms)@),
            strictly_sorted(old_v),
            i <= terms.len(),
            forall|j: int| 0 <= j < i ==> text_lt(#[trigger] old_v[j], t@),
        decreases terms.len() - i,
    {
        if text_equal(terms[i].as_str(), t.as_str()) {
            assert(old_v[i as int] == t@);
            assert(old_v.to_set().insert(t@) =~= old_v.to_set());
            return;
        }
        if text_less(t.as_str(), terms[i].as_str()) {
            terms.insert(i, t);
            let ghost nv = texts_view(terms@);
            assert(nv =~= old_v.insert(i as int, t@));
            assert forall|a: int, b: int| 0 <= a < b < nv.len() implies text_lt(#[trigger] nv[a], #[trigger] nv[b]) by {
                if b < i {
                } else if a < i && b == i {
                } else if a < i && b > i {
                    assert(nv[b] == old_v[b - 1]);
                    if b - 1 > i {
                        lemma_text_lt_transitive(t@, old_v[i as int], old_v[b - 1]);
                    }
                    lemma_text_lt_transitive(nv[a], t@, nv[b]);
                } else if a == i {
                    assert(nv[b] == old_v[b - 1]);
                    if b - 1 > i {
                        lemma_text_lt_transitive(t@, old_v[i as int], old_v[b - 1]);
                    }
                } else {
                    assert(nv[a] == old_v[a - 1]);
                    assert(nv[b] == old_v[b - 1]);
                }
            }
            assert(nv.to_set() =~= old_v.to_set().insert(t@)) by {
                assert forall|x: Seq<char>| nv.to_set().contains(x) <==> old_v.to_set().insert(t@).contains(x) by {
                    if nv.contains(x) {
                        let k = choose|k: int| 0 <= k < nv.len() && nv[k] == x;
                        if k < i {
                            assert(old_v[k] == x);
                        } else if k > i {
                            assert(old_v[k - 1] == x);
                        }
                    }
                    if old_v.contains(x) {
                        let k = choose|k: int| 0 <= k < old_v.len() && old_v[k] == x;
                        if k < i {
                            assert(nv[k] == x);
                        } else {
                            assert(nv[k + 1] == x);
                        }
                    }
                    if x == t@ {
                        assert(nv[i as int] == x);
                    }
                }
            }
            return;
        }
        proof {
            lemma_text_lt_total(t@, old_v[i as int]);
        }
        i = i + 1;
    }
    terms.push(t);
    let ghost nv = texts_view(terms@);
    assert(nv =~= old_v.push(t@));
    assert(nv.to_set() =~= old_v.to_set().insert(t@)) by {
        assert forall|x: Seq<char>| nv.to_set().contains(x) <==> old_v.to_set().insert(t@).contains(x) by {
            if nv.contains(x) {
                let k = choose|k: int| 0 <= k < nv.len() && nv[k] == x;
                if k < old_v.len() {
                    assert(old_v[k] == x);
                }
            }
            if old_v.contains(x) {
                let k = choose|k: int| 0 <= k < old_v.len() && old_v[k] == x;
                assert(nv[k] == x);
            }
            if x == t@ {
                assert(nv[old_v.len() as int] == x);
            }
        }
    }
}

/// Strictly sorted texts are determined by the set of texts they hold.
pub proof fn lemma_sorted_texts_canonical(s1: Seq<Seq<char>>, s2: Seq<Seq<char>>)
    requires
        strictly_sorted(s1),
        strictly_sorted(s2),
        s1.to_set() == s2.to_set(),
    ensures
        s1 == s2,
    decreases s1.len(),
{
    if s1.len() == 0 {
        if s2.len() > 0 {
            assert(s2.to_set().contains(s2[0]));
        }
        assert(s1 =~= s2);
    } else if s2.len() == 0 {
        assert(s1.to_set().contains(s1[0]));
    } else {
        // the first elements are the least of the common set
        assert(s1.to_set().contains(s1[0]));
        assert(s2.to_set().contains(s2[0]));
        let k1 = choose|k: int| 0 <= k < s2.len() && s2[k] == s1[0];
        let k2 = choose|k: int| 0 <= k < s1.len() && s1[k] == s2[0];
        lemma_text_lt_irreflexive(s1[0]);
        if k1 > 0 {
            assert(text_lt(s2[0], s2[k1]));
            if k2 > 0 {
                assert(text_lt(s1[0], s1[k2]));
                lemma_text_lt_asymmetric(s1[0], s2[0]);
            }
        }
        assert(s1[0] == s2[0]);
        let t1 = s1.drop_first();
        let t2 = s2.drop_first();
        assert(strictly_sorted(t1)) by {
            assert forall|i: int, j: int| 0 <= i < j < t1.len() implies text_lt(#[trigger] t1[i], #[trigger] t1[j]) by {
                assert(t1[i] == s1[i + 1]);
                assert(t1[j] == s1[j + 1]);
            }
        }
        assert(strictly_sorted(t2)) by {
            assert forall|i: int, j: int| 0 <= i < j < t2.len() implies text_lt(#[trigger] t2[i], #[trigger] t2[j]) by {
                assert(t2[i] == s2[i + 1]);
                assert(t2[j] == s2[j + 1]);
            }
        }
        assert(t1.to_set() =~= t2.to_set()) by {
            assert forall|x: Seq<char>| t1.to_set().contains(x) implies t2.to_set().contains(x) by {
                let k = choose|k: int| 0 <= k < t1.len() && t1[k] == x;
                assert(s1[k + 1] == x);
                assert(s1.to_set().contains(x));
                let m = choose|m: int| 0 <= m < s2.len() && s2[m] == x;
                assert(text_lt(s1[0], s1[k + 1]));
                if m == 0 {
                }
                assert(t2[m - 1] == x);
            }
            assert forall|x: Seq<char>| t2.to_set().contains(x) implies t1.to_set().contains(x) by {
                let k = choose|k: int| 0 <= k < t2.len() && t2[k] == x;
                assert(s2[k + 1] == x);
                assert(s2.to_set().contains(x));
                let m = choose|m: int| 0 <= m < s1.len() && s1[m] == x;
                assert(text_lt(s2[0], s2[k + 1]));
                if m == 0 {
                }
                assert(t1[m - 1] == x);
            }
        }
        lemma_sorted_texts_canonical(t1, t2);
        assert(s1 =~= seq![s1[0]] + t1);
        assert(s2 =~= seq![s2[0]] + t2);
    }
}

/// `s` with `p` taken off its front for as long as it begins with it
/// (`str::trim_start_matches`).
pub fn trim_start_matches(s: &str, p: &str) -> (r: String)
    ensures
        r@ == trim_prefix_all(s@, p@),
{
    let cs = chars_of(s);
    let ps = chars_of(p);
    if ps.len() == 0 {
        return string_of_chars(&cs);
    }
    let mut pos: usize = 0;
    assert(s@.skip(0) =~= s@);
    while chars_match_at(&cs, pos, &ps)
        invariant
            cs@ == s@,
            ps@ == p@,
            p@.len() > 0,
            pos <= cs.len(),
            trim_prefix_all(s@, p@) == trim_prefix_all(s@.skip(pos as int), p@),
        decreases cs.len() - pos,
    {
        assert(s@.skip(pos as int).take(p@.len() as int) =~= cs@.subrange(pos as int, pos + ps.len()));
        assert(s@.skip(pos as int).skip(p@.len() as int) =~= s@.skip(pos + ps.len()));
        pos = pos + ps.len();
    }
    assert(!starts_with(s@.skip(pos as int), p@)) by {
        if p@.len() <= cs.len() - pos {
            assert(s@.skip(pos as int).take(p@.len() as int) =~= cs@.subrange(pos as int, pos + ps.len()));
        }
    }
    string_of_chars_from(&cs, pos)
}

/// Whether `s` begins with `p` (`str::starts_with`).
pub fn text_starts_with(s: &str, p: &str) -> (r: bool)
    ensures
        r == starts_with(s@, p@),
{
    let cs = chars_of(s);
    let ps = chars_of(p);
    let r = chars_match_at(&cs, 0, &ps);
    assert(s@.take(p@.len() as int) =~= cs@.subrange(0, ps.len() as int)) by {
        if p@.len() <= s@.len() {
        }
    }
    r
}

/// The term that a `@graph` item defines, if any.
pub fn term_of_item(item: &Json) -> (r: Option<String>)
    ensures
        match r {
            Some(t) => item_term(item@) == Some(t@),
            None => item_term(item@) is None,
        },
{
    match item.get("@id") {
        Some(Json::Str(id)) => {
            let prefix = "https://schema.org/";
            proof {
                reveal_strlit("https://schema.org/");
            }
            if text_starts_with(id.as_str(), prefix) {
                let t = trim_start_matches(id.as_str(), prefix);
                if t.as_str().is_empty() {
                    None
                } else {
                    Some(t)
                }
            } else {
                None
            }
        },
        _ => None,
    }
}

impl SchemaDefinitions {
    /// The terms of a JSON-LD document: the schema.org terms that its `@graph`
    /// items define and the JSON-LD keywords, numbered in increasing order.
    pub fn from_document(root: &Json) -> (r: Result<SchemaDefinitions, DefinitionError>)
        ensures
            match r {
                Ok(d) => d.wf() && d@.to_set() == document_terms(root@),
                Err(e) => e is TooManyTerms && exists|s: Seq<Seq<char>>|
                    strictly_sorted(s) && s.to_set() == document_terms(root@) && s.len() > max_terms(),
            },
    {
        let mut terms: Vec<String> = Vec::new();
        let ghost items = graph_items(root@);
        match root.get("@graph") {
            Some(Json::Array(a)) => {
                proof {
                    lemma_array_view(*a);
                }
                let mut i: usize = 0;
                assert(texts_view(terms@).to_set() =~= Set::new(
                    |t: Seq<char>| exists|j: int| 0 <= j < 0 && #[trigger] item_term(items[j]) == Some(t),
                ));
                while i < a.len()
                    invariant
                        items.len() == a.len(),
                        forall|j: int| 0 <= j < a.len() ==> #[trigger] items[j] == a@[j]@,
                        i <= a.len(),
                        strictly_sorted(texts_view(terms@)),
                        texts_view(terms@).to_set() == Set::new(
                            |t: Seq<char>| exists|j: int| 0 <= j < i && #[trigger] item_term(items[j]) == Some(t),
                        ),
                    decreases a.len() - i,
                {
                    let ghost before = texts_view(terms@).to_set();
                    let found = term_of_item(&a[i]);
                    assert(items[i as int] == a@[i as int]@);
                    let ghost ti = item_term(items[i as int]);
                    match found {
                        Some(t) => {
                            insert_sorted_text(&mut terms, t);
                            assert(texts_view(terms@).to_set() == before.insert(ti->0));
                        },
                        None => {
                            assert(ti is None);
                        },
                    }
                    assert(texts_view(terms@).to_set() =~= Set::new(
                        |t: Seq<char>| exists|j: int| 0 <= j < i + 1 && #[trigger] item_term(items[j]) == Some(t),
                    )) by {
                        assert forall|t: Seq<char>| texts_view(terms@).to_set().contains(t) <==>
                            (exists|j: int| 0 <= j < i + 1 && #[trigger] item_term(items[j]) == Some(t)) by {
                            if exists|j: int| 0 <= j < i + 1 && #[trigger] item_term(items[j]) == Some(t) {
                                let j = choose|j: int| 0 <= j < i + 1 && #[trigger] item_term(items[j]) == Some(t);
                                if j < i {
                                    assert(before.contains(t));
                                } else {
                                    assert(ti == Some(t));
                                }
                            }
                            if before.contains(t) {
                                let j = choose|j: int| 0 <= j < i && #[trigger] item_term(items[j]) == Some(t);
                                assert(0 <= j < i + 1);
                            }
                            if ti == Some(t) {
                                assert(item_term(items[i as int]) == Some(t));
                            }
                        }
                    }
                    i = i + 1;
                }
            },
            _ => {
                assert(items.len() == 0);
                assert(texts_view(terms@).to_set() =~= Set::new(
                    |t: Seq<char>| exists|j: int| 0 <= j < items.len() && #[trigger] item_term(items[j]) == Some(t),
                ));
            },
        }
        let ghost graph_set = texts_view(terms@).to_set();
        assert(graph_set == Set::new(
            |t: Seq<char>| exists|j: int| 0 <= j < items.len() && #[trigger] item_term(items[j]) == Some(t),
        ));
        insert_sorted_text(&mut terms, String::from_str("@type"));
        insert_sorted_text(&mut terms, String::from_str("@id"));
        insert_sorted_text(&mut terms, String::from_str("@context"));
        insert_sorted_text(&mut terms, String::from_str("@value"));
        insert_sorted_text(&mut terms, String::from_str("@language"));
        assert(texts_view(terms@).to_set() =~= document_terms(root@));
        if terms.len() > 0 && terms.len() - 1 > (u32::MAX as usize) {
            return Err(DefinitionError::TooManyTerms);
        }
        Ok(SchemaDefinitions { terms })
    }
}

impl SchemaDefinitions {
    /// The terms that a JSON-LD text defines (see `from_document`); an error
    /// with `serde_json`'s message where the text is not JSON.
    pub fn parse(json_ld_str: &str) -> (r: Result<SchemaDefinitions, DefinitionError>)
        ensures
            json_text_value(json_ld_str@) is None ==> r matches Err(DefinitionError::InvalidJson(_)),
            json_text_value(json_ld_str@) matches Some(root) ==> match r {
                Ok(d) => d.wf() && d@.to_set() == document_terms(root),
                Err(e) => e is TooManyTerms && exists|s: Seq<Seq<char>>|
                    strictly_sorted(s) && s.to_set() == document_terms(root) && s.len() > max_terms(),
            },
    {
        match read_json_text(json_ld_str) {
            Ok(root) => SchemaDefinitions::from_document(&root),
            Err(e) => Err(DefinitionError::InvalidJson(json_error_message(&e))),
        }
    }
}

/// A term's id names it: the term with the id of a term is that term.
pub proof fn law_term_id_round_trip(d: SchemaDefinitions, t: Seq<char>)
    requires
        d.wf(),
        d@.contains(t),
    ensures
        term_id(d@, t) matches Some(id) && id_term(d@, id) == Some(t),
{
    let k = d@.index_of(t);
    assert(0 <= k < d@.len() && d@[k] == t);
}

/// An id names a term: the id of the term with an id is that id.
pub proof fn law_id_term_round_trip(d: SchemaDefinitions, id: u32)
    requires
        d.wf(),
        id < d@.len(),
    ensures
        id_term(d@, id) matches Some(t) && term_id(d@, t) == Some(id),
{
    let t = d@[id as int];
    assert(d@.contains(t));
    let k = d@.index_of(t);
    lemma_text_lt_irreflexive(t);
    if k < id {
        assert(text_lt(d@[k], d@[id as int]));
    }
    if k > id {
        assert(text_lt(d@[id as int], d@[k]));
    }
}

/// A text is a term exactly when it has an id, and then the id is below the
/// number of terms.
pub proof fn law_valid_term_has_id(d: SchemaDefinitions, t: Seq<char>)
    requires
        d.wf(),
    ensures
        d@.contains(t) <==> term_id(d@, t) is Some,
        term_id(d@, t) matches Some(id) ==> id < d@.len(),
{
    if d@.contains(t) {
        let k = d@.index_of(t);
        assert(0 <= k < d@.len() && d@[k] == t);
    }
}

/// Ids follow the order of the terms: a smaller id names a smaller term.
pub proof fn law_ids_follow_term_order(d: SchemaDefinitions, i: u32, j: u32)
    requires
        d.wf(),
        i < j < d@.len(),
    ensures
        id_term(d@, i) matches Some(a) && id_term(d@, j) matches Some(b) && text_lt(a, b),
{
}

/// The ids depend on the terms alone: two vocabularies with the same terms
/// give every text the same id.
pub proof fn law_ids_determined_by_terms(a: SchemaDefinitions, b: SchemaDefinitions, t: Seq<char>)
    requires
        a.wf(),
        b.wf(),
        a@.to_set() == b@.to_set(),
    ensures
        term_id(a@, t) == term_id(b@, t),
{
    lemma_sorted_texts_canonical(a@, b@);
}

/// The JSON-LD keywords are terms of every document.
pub proof fn law_keywords_are_terms(root: JsonView)
    ensures
        document_terms(root).contains("@type"@),
        document_terms(root).contains("@id"@),
        document_terms(root).contains("@context"@),
        document_terms(root).contains("@value"@),
        document_terms(root).contains("@language"@),
{
}

} // verus!
