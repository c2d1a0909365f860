use vstd::prelude::*;

use crate::definition_parser::SchemaDefinitions;
use crate::json::{child_count, entries_view, elements_view, lemma_array_view, lemma_object_view, Json, JsonView};
use crate::text::concat;

verus! {

/// The first key, in depth-first order, that is not a term, among the
/// children of `v` from the `i`-th on.
pub open spec fn first_invalid_key_from(terms: Seq<Seq<char>>, v: JsonView, i: int) -> Option<Seq<char>>
    decreases v, if 0 <= i < child_count(v) { child_count(v) - i } else { 0 },
{
    if 0 <= i < child_count(v) {
        match v {
            JsonView::Object(e) => if !terms.contains(e[i].0) {
                Some(e[i].0)
            } else {
                match first_invalid_key_from(terms, e[i].1, 0) {
                    Some(k) => Some(k),
                    None => first_invalid_key_from(terms, v, i + 1),
                }
            },
            JsonView::Array(a) => match first_invalid_key_from(terms, a[i], 0) {
                Some(k) => Some(k),
                None => first_invalid_key_from(terms, v, i + 1),
            },
            _ => None,
        }
    } else {
        None
    }
}

/// The first key of the document, in depth-first order, that is not a term.
pub open spec fn first_invalid_key(terms: Seq<Seq<char>>, v: JsonView) -> Option<Seq<char>> {
    first_invalid_key_from(terms, v, 0)
}

/// The message of the error for a key that is not a term.
pub open spec fn invalid_field_message(k: Seq<char>) -> Seq<char> {
    "Invalid field name: "@ + k
}

/// Checks documents against the terms of a vocabulary.
pub struct SchemaValidator<'a> {
    definitions: &'a SchemaDefinitions,
}

impl<'a> SchemaValidator<'a> {
    /// The terms that the validator accepts.
    pub closed spec fn terms(&self) -> Seq<Seq<char>> {
        self.definitions@
    }

    /// The validator's definitions are well-formed.
    pub closed spec fn wf(&self) -> bool {
        self.definitions.wf()
    }

    /// A validator for the terms of `definitions`.
    pub fn new(definitions: &'a SchemaDefinitions) -> (r: SchemaValidator<'a>)
        requires
            definitions.wf(),
        ensures
            r.wf(),
            r.terms() == definitions@,
    {
        SchemaValidator { definitions }
    }

    /// Succeeds when every key of every object in the document, at any depth,
    /// is a term; otherwise fails with a message that names the first key that
    /// is not, in depth-first order.
    pub fn validate(&self, value: &Json) -> (r: Result<(), String>)
        requires
            self.wf(),
        ensures
            match first_invalid_key(self.terms(), value@) {
                None => r is Ok,
                Some(k) => r matches Err(m) && m@ == invalid_field_message(k),
            },
        decreases value,
    {
        match value {
            Json::Object(o) => {
                proof {
                    lemma_object_view(*o);
                }
                let ghost e = entries_view(o@);
                let mut i: usize = 0;
                while i < o.len()
                    invariant
                        self.wf(),
                        *value == Json::Object(*o),
                        value@ == JsonView::Object(e),
                        e == entries_view(o@),
                        i <= o.len(),
                        first_invalid_key(self.terms(), value@) == first_invalid_key_from(self.terms(), value@, i as int),
                    decreases o.len() - i,
                {
                    if !self.definitions.is_valid_term(o[i].0.as_str()) {
                        return Err(concat("Invalid field name: ", o[i].0.as_str()));
                    }
                    let inner = self.validate(&o[i].1);
                    if inner.is_err() {
                        return inner;
                    }
                    i = i + 1;
                }
                Ok(())
            },
            Json::Array(a) => {
                proof {
                    lemma_array_view(*a);
                }
                let ghost e = elements_view(a@);
                let mut i: usize = 0;
                while i < a.len()
                    invariant
                        self.wf(),
                        *value == Json::Array(*a),
                        value@ == JsonView::Array(e),
                        e == elements_view(a@),
                        i <= a.len(),
                        first_invalid_key(self.terms(), value@) == first_invalid_key_from(self.terms(), value@, i as int),
                    decreases a.len() - i,
                {
                    let inner = self.validate(&a[i]);
                    if inner.is_err() {
                        return inner;
                    }
                    i = i + 1;
                }
                Ok(())
            },
            _ => Ok(()),
        }
    }
}

/// Every object key among the children of `v` from the `i`-th on, at any
/// depth, is a term.
pub open spec fn keys_are_terms_from(terms: Seq<Seq<char>>, v: JsonView, i: int) -> bool
    decreases v, if 0 <= i < child_count(v) { child_count(v) - i } else { 0 },
{
    if 0 <= i < child_count(v) {
        match v {
            JsonView::Object(e) => terms.contains(e[i].0) && keys_are_terms_from(terms, e[i].1, 0)
                && keys_are_terms_from(terms, v, i + 1),
            JsonView::Array(a) => keys_are_terms_from(terms, a[i], 0) && keys_are_terms_from(terms, v, i + 1),
            _ => true,
        }
    } else {
        true
    }
}

/// Every object key of the document, at any depth, is a term.
pub open spec fn keys_are_terms(terms: Seq<Seq<char>>, v: JsonView) -> bool {
    keys_are_terms_from(terms, v, 0)
}

proof fn lemma_first_invalid_key_from(terms: Seq<Seq<char>>, v: JsonView, i: int)
    requires
        0 <= i,
    ensures
        first_invalid_key_from(terms, v, i) is None <==> keys_are_terms_from(terms, v, i),
        first_invalid_key_from(terms, v, i) matches Some(k) ==> !terms.contains(k),
    decreases v, if i < child_count(v) { child_count(v) - i } else { 0 },
{
    if i < child_count(v) {
        match v {
            JsonView::Object(e) => {
                lemma_first_invalid_key_from(terms, e[i].1, 0);
                lemma_first_invalid_key_from(terms, v, i + 1);
            },
            JsonView::Array(a) => {
                lemma_first_invalid_key_from(terms, a[i], 0);
                lemma_first_invalid_key_from(terms, v, i + 1);
            },
            _ => {},
        }
    }
}

/// Validation accepts exactly the documents whose keys, at any depth, are all
/// terms; the key that a refusal names is not a term.
pub proof fn law_validation_accepts_term_keys(terms: Seq<Seq<char>>, v: JsonView)
    ensures
        first_invalid_key(terms, v) is None <==> keys_are_terms(terms, v),
        first_invalid_key(terms, v) matches Some(k) ==> !terms.contains(k),
{
    lemma_first_invalid_key_from(terms, v, 0);
}

} // verus!
