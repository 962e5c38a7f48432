//! The variables seen by one environment.
use vstd::prelude::*;

use crate::ancestor_mapping::position_of_key;
use crate::template_file::value_type;
use crate::value::{
    clone_document, clone_value, doc_of, doc_wf, json_of, keys_before, lemma_doc_of, lemma_doc_of_update,
    Document, Json, JsonValue,
};

verus! {

/// Why an environment's variables could not be formed.
pub enum EnvironmentError {
    /// The document has no block for the environment.
    NotFound(String),
    /// The environment's block is not an object; the kind it has instead.
    NotAnObject(String),
}

/// The variables of `variables` with the block of `environment` laid over
/// them: each key of the block replaces or adds the key of that name.
pub fn get_environment_value(variables: &Document, environment: &str) -> (r: Result<Document, EnvironmentError>)
    requires
        doc_wf(variables@),
    ensures
        ({
            let m = doc_of(variables@);
            match r {
                Ok(d) => m.contains_key(environment@) && m[environment@] is Object && doc_wf(d@)
                    && doc_of(d@) == m.union_prefer_right(m[environment@]->Object_0),
                Err(EnvironmentError::NotFound(e)) => !m.contains_key(environment@) && e@ == environment@,
                Err(EnvironmentError::NotAnObject(_)) => m.contains_key(environment@) && !(m[environment@] is Object),
            }
        }),
{
    let ghost m = doc_of(variables@);
    proof {
        lemma_doc_of(variables@);
    }
    let name = environment.to_owned();
    let i = match position_of_key(variables, &name) {
        Some(i) => i,
        None => {
            return Err(EnvironmentError::NotFound(name));
        },
    };
    let block = match &variables[i].1 {
        JsonValue::Object(e) => e,
        other => {
            return Err(EnvironmentError::NotAnObject(value_type(other)));
        },
    };
    let ghost b = doc_of(block@);
    proof {
        assert(m[environment@] == json_of(variables@[i as int].1));
        assert(doc_wf(block@));
        lemma_doc_of(block@);
    }
    let mut result = clone_document(variables);
    let mut x: usize = 0;
    proof {
        assert(b.restrict(keys_before(block@, 0)) =~= Map::<Seq<char>, Json>::empty());
        assert(m.union_prefer_right(Map::<Seq<char>, Json>::empty()) =~= m);
    }
    while x < block.len()
        invariant
            x <= block@.len(),
            doc_wf(result@),
            doc_wf(block@),
            b == doc_of(block@),
            doc_of(result@) == m.union_prefer_right(b.restrict(keys_before(block@, x as int))),
        decreases block@.len() - x,
    {
        proof {
            lemma_doc_of(result@);
            lemma_doc_of(block@);
        }
        let ghost before = result@;
        let ghost k = block@[x as int].0@;
        let value = clone_value(&block[x].1);
        proof {
            assert(keys_before(block@, x + 1) =~= keys_before(block@, x as int).insert(k)) by {
                assert forall|q: Seq<char>| keys_before(block@, x + 1).contains(q) implies keys_before(block@, x as int).insert(k).contains(q) by {
                    let y = choose|y: int| 0 <= y < x + 1 && #[trigger] block@[y].0@ == q;
                    if y < x {
                        assert(keys_before(block@, x as int).contains(q));
                    }
                }
                assert forall|q: Seq<char>| keys_before(block@, x as int).insert(k).contains(q) implies keys_before(block@, x + 1).contains(q) by {
                    if q == k {
                        assert(block@[x as int].0@ == q);
                    } else {
                        let y = choose|y: int| 0 <= y < x && #[trigger] block@[y].0@ == q;
                    }
                }
            }
            assert(b[k] == json_of(block@[x as int].1));
        }
        match position_of_key(&result, &block[x].0) {
            Some(j) => {
                let key = result[j].0.clone();
                result.set(j, (key, value));
                proof {
                    lemma_doc_of_update(before, j as int, value);
                    assert(doc_of(result@) =~= m.union_prefer_right(b.restrict(keys_before(block@, x + 1))));
                    assert forall|y: int| 0 <= y < result@.len() implies crate::value::value_wf(#[trigger] result@[y].1) by {
                        if y != j {
                            assert(result@[y] == before[y]);
                        }
                    }
                }
            },
            None => {
                result.push((block[x].0.clone(), value));
                proof {
                    assert(result@.drop_last() == before);
                    assert(!doc_of(before).contains_key(k)) by {
                        if doc_of(before).contains_key(k) {
                            let y = choose|y: int| 0 <= y < before.len() && #[trigger] before[y].0@ == k;
                        }
                    }
                    assert(doc_of(result@) =~= m.union_prefer_right(b.restrict(keys_before(block@, x + 1))));
                    assert forall|y: int, z: int| 0 <= y < z < result@.len() implies result@[y].0@ != result@[z].0@ by {
                        if z == result@.len() - 1 {
                            assert(result@[y] == before[y]);
                        }
                    }
                    assert forall|y: int| 0 <= y < result@.len() implies crate::value::value_wf(#[trigger] result@[y].1) by {
                        if y < before.len() {
                            assert(result@[y] == before[y]);
                        }
                    }
                }
            },
        }
        x += 1;
    }
    proof {
        assert(b.restrict(keys_before(block@, x as int)) =~= b) by {
            assert forall|q: Seq<char>| #[trigger] b.contains_key(q) implies keys_before(block@, x as int).contains(q) by {
                let y = choose|y: int| 0 <= y < block@.len() && #[trigger] block@[y].0@ == q;
            }
        }
    }
    Ok(result)
}

} // verus!
