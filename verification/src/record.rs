//! Structural derivation, spelled out: the composite codec of a record
//! with named fields.
//!
//! A record type gains the two capabilities by listing its fields in
//! declaration order: serialization assembles an Object pairing each field
//! name with the field's own serialized value; deserialization looks each
//! name up in the input Object and decodes the sub-value with the field
//! type's own capability, failing as a whole if any step fails. `Person`
//! below is the worked instance of that scheme; the bodies are exactly
//! what the per-field rule produces, with nothing special to the type.

use vstd::prelude::*;
use crate::{JsonSerializable, JsonDeserializable};
use crate::json_value::{
    JsonValue, SpecValue, SpecNumber, lemma_of_u32_trunc, lookup_pairs, model_pairs,
    lemma_model_pairs, wf_pairs,
};

verus! {

/// A record with named fields, the running example of the derivation
/// scheme: one text field, one unsigned integer, one boolean.
#[derive(Debug, PartialEq)]
pub struct Person {
    pub name: String,
    pub age: u32,
    pub is_student: bool,
}

impl Person {
    /// The pair list of the serialized record, field declaration order kept.
    pub open spec fn spec_pairs(&self) -> Seq<(Seq<char>, SpecValue)> {
        seq![
            ("name"@, self.name.spec_to_json()),
            ("age"@, self.age.spec_to_json()),
            ("is_student"@, self.is_student.spec_to_json()),
        ]
    }
}

impl JsonSerializable for Person {
    open spec fn spec_to_json(&self) -> SpecValue {
        SpecValue::Object(self.spec_pairs())
    }

    fn to_json(&self) -> (r: JsonValue) {
        let mut value: Vec<(String, JsonValue)> = Vec::new();
        value.push(("name".to_owned(), self.name.to_json()));
        value.push(("age".to_owned(), self.age.to_json()));
        value.push(("is_student".to_owned(), self.is_student.to_json()));
        let r = JsonValue::Object(value);
        proof {
            lemma_model_pairs(value@);
            assert(model_pairs(value@) =~= self.spec_pairs());
            let ps = model_pairs(value@);
            let s1 = ps.subrange(0, 1);
            let s2 = ps.subrange(0, 2);
            assert(s2.subrange(0, 1) =~= s1);
            assert(s1[0] == ps[0] && s2[0] == ps[0] && s2[1] == ps[1]);
            assert(ps[0].1.wf() && ps[1].1.wf() && ps[2].1.wf());
            assert(wf_pairs(s1.subrange(0, 0)));
            assert(wf_pairs(s1));
            assert(wf_pairs(s2));
            assert(wf_pairs(ps));
        }
        r
    }
}

impl JsonDeserializable for Person {
    open spec fn json_accepted(j: SpecValue) -> bool {
        &&& match j.lookup("name"@) {
            Some(v) => <String as JsonDeserializable>::json_accepted(v),
            None => false,
        }
        &&& match j.lookup("age"@) {
            Some(v) => <u32 as JsonDeserializable>::json_accepted(v),
            None => false,
        }
        &&& match j.lookup("is_student"@) {
            Some(v) => <bool as JsonDeserializable>::json_accepted(v),
            None => false,
        }
    }

    open spec fn json_decodes(&self, j: SpecValue) -> bool {
        &&& match j.lookup("name"@) {
            Some(v) => self.name.json_decodes(v),
            None => false,
        }
        &&& match j.lookup("age"@) {
            Some(v) => self.age.json_decodes(v),
            None => false,
        }
        &&& match j.lookup("is_student"@) {
            Some(v) => self.is_student.json_decodes(v),
            None => false,
        }
    }

    fn from_json(value: &JsonValue) -> (r: Option<Self>) {
        let name_value = match value.get("name") {
            Some(v) => v,
            None => {
                return None;
            },
        };
        let name = match <String as JsonDeserializable>::from_json(name_value) {
            Some(x) => x,
            None => {
                return None;
            },
        };
        let age_value = match value.get("age") {
            Some(v) => v,
            None => {
                return None;
            },
        };
        let age = match <u32 as JsonDeserializable>::from_json(age_value) {
            Some(x) => x,
            None => {
                return None;
            },
        };
        let is_student_value = match value.get("is_student") {
            Some(v) => v,
            None => {
                return None;
            },
        };
        let is_student = match <bool as JsonDeserializable>::from_json(is_student_value) {
            Some(x) => x,
            None => {
                return None;
            },
        };
        Some(Person { name, age, is_student })
    }
}

/// Round-trip law: the serialization of any record is accepted by its own
/// deserializer, and anything that tree decodes to carries exactly the
/// record's field values.
pub proof fn lemma_person_round_trip(p: Person, q: Person)
    ensures
        Person::json_accepted(p.spec_to_json()),
        q.json_decodes(p.spec_to_json()) ==> q.name@ == p.name@ && q.age == p.age
            && q.is_student == p.is_student,
{
    let ps = p.spec_pairs();
    reveal_strlit("name");
    reveal_strlit("age");
    reveal_strlit("is_student");
    let rest1 = ps.subrange(1, 3);
    let rest2 = rest1.subrange(1, 2);
    assert(rest1[0] == ps[1] && rest1[1] == ps[2] && rest1.len() == 2);
    assert(rest2[0] == ps[2] && rest2.len() == 1);
    assert(rest2.subrange(1, 1).len() == 0);
    // "name" is found at the first pair
    assert(lookup_pairs(ps, "name"@) == Some(p.name.spec_to_json()));
    // "age" passes the first pair, matches the second
    assert("age"@.len() == 3 && "name"@.len() == 4);
    assert(lookup_pairs(ps, "age"@) == lookup_pairs(rest1, "age"@));
    assert(lookup_pairs(ps, "age"@) == Some(p.age.spec_to_json()));
    // "is_student" passes the first two pairs, matches the third
    assert("is_student"@.len() == 10);
    assert(lookup_pairs(ps, "is_student"@) == lookup_pairs(rest1, "is_student"@));
    assert(lookup_pairs(rest1, "is_student"@) == lookup_pairs(rest2, "is_student"@));
    assert(lookup_pairs(ps, "is_student"@) == Some(p.is_student.spec_to_json()));
    lemma_of_u32_trunc(p.age);
}

} // verus!
