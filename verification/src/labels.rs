//! The labels that a model tells apart.

use crate::text::same_text;
use std::collections::HashMap;
use vstd::prelude::*;
use vstd::set_lib::lemma_subset_equality;

verus! {

/// Why the number of labels is not known.
#[derive(Clone, Copy, Debug, PartialEq, Eq, Structural)]
pub enum LabelError {
    /// The labels are neither in the model's configuration nor given.
    Missing,
    /// The labels are both in the configuration and given, and are not the same.
    Different,
}

/// Labels by their ids, with the labels as sequences of characters.
pub open spec fn label_texts(labels: Map<u32, String>) -> Map<u32, Seq<char>> {
    labels.map_values(|label: String| label@)
}

/// Whether two maps give the same ids the same labels.
pub fn same_labels(a: &HashMap<u32, String>, b: &HashMap<u32, String>) -> (same: bool)
    ensures
        same == (label_texts(a@) == label_texts(b@)),
{
    broadcast use vstd::std_specs::hash::group_hash_axioms;

    let ghost ta = label_texts(a@);
    let ghost tb = label_texts(b@);
    proof {
        assert(ta.dom() =~= a@.dom());
        assert(tb.dom() =~= b@.dom());
    }
    if a.len() != b.len() {
        assert(ta.dom().len() != tb.dom().len());
        return false;
    }
    for (id, label) in it: a.iter()
        invariant
            ta == label_texts(a@),
            tb == label_texts(b@),
            forall|i: int|
                0 <= i < it.index() ==> {
                    let id = *(#[trigger] it.seq()[i]).0;
                    b@.contains_key(id) && b@[id]@ == a@[id]@
                },
    {
        assert(a@.contains_key(*id) && a@[*id] == *label);
        assert(ta.contains_key(*id) && ta[*id] == label@);
        match b.get(id) {
            Some(other) => {
                if !same_text(label.as_str(), other.as_str()) {
                    assert(tb[*id] == other@);
                    return false;
                }
            },
            None => {
                assert(!tb.contains_key(*id));
                return false;
            },
        }
    }
    proof {
        assert forall|id: u32| #[trigger] a@.contains_key(id) implies b@.contains_key(id)
            && b@[id]@ == a@[id]@ by {}
        lemma_subset_equality(a@.dom(), b@.dom());
        assert(ta =~= tb);
    }
    true
}

/// The number of labels: of those in the model's configuration or of those
/// given, which must be the same if there are both.
pub fn id2label_len(
    config_id2label: &Option<HashMap<u32, String>>,
    id2label: Option<HashMap<u32, String>>,
) -> (res: Result<usize, LabelError>)
    ensures
        match (*config_id2label, id2label) {
            (None, None) => res == Err::<usize, LabelError>(LabelError::Missing),
            (None, Some(given)) => res is Ok && res->Ok_0 == given@.len(),
            (Some(configured), None) => res is Ok && res->Ok_0 == configured@.len(),
            (Some(configured), Some(given)) => if label_texts(configured@) == label_texts(given@) {
                res is Ok && res->Ok_0 == configured@.len()
            } else {
                res == Err::<usize, LabelError>(LabelError::Different)
            },
        },
{
    broadcast use vstd::std_specs::hash::group_hash_axioms;

    match (config_id2label, id2label) {
        (None, None) => Err(LabelError::Missing),
        (None, Some(given)) => Ok(given.len()),
        (Some(configured), None) => Ok(configured.len()),
        (Some(configured), Some(given)) => if same_labels(configured, &given) {
            Ok(configured.len())
        } else {
            Err(LabelError::Different)
        },
    }
}

/// Labels are the same exactly if each id that has a label on one side has the
/// same one on the other.
pub proof fn law_same_labels(a: &HashMap<u32, String>, b: &HashMap<u32, String>, same: bool)
    requires
        call_ensures(same_labels, (a, b), same),
    ensures
        same <==> forall|id: u32|
            #![trigger a@.contains_key(id)]
            #![trigger b@.contains_key(id)]
            (a@.contains_key(id) <==> b@.contains_key(id)) && (a@.contains_key(id) ==> a@[id]@
                == b@[id]@),
{
    let ta = label_texts(a@);
    let tb = label_texts(b@);
    if ta == tb {
        assert forall|id: u32|
            #![trigger a@.contains_key(id)]
            #![trigger b@.contains_key(id)]
            (a@.contains_key(id) <==> b@.contains_key(id)) && (a@.contains_key(id) ==> a@[id]@
                == b@[id]@) by {
            assert(ta.contains_key(id) == a@.contains_key(id));
            assert(tb.contains_key(id) == b@.contains_key(id));
            if a@.contains_key(id) {
                assert(ta[id] == a@[id]@);
                assert(tb[id] == b@[id]@);
            }
        }
    } else if forall|id: u32|
        #![trigger a@.contains_key(id)]
        #![trigger b@.contains_key(id)]
        (a@.contains_key(id) <==> b@.contains_key(id)) && (a@.contains_key(id) ==> a@[id]@
            == b@[id]@) {
        assert forall|id: u32| ta.contains_key(id) == tb.contains_key(id) by {
            assert(ta.contains_key(id) == a@.contains_key(id));
            assert(tb.contains_key(id) == b@.contains_key(id));
        }
        assert forall|id: u32| #[trigger] ta.contains_key(id) implies ta[id] == tb[id] by {
            assert(a@.contains_key(id));
        }
        assert(ta =~= tb);
    }
}

/// The number of labels is that of the labels that are known, from either side.
/// It is not known exactly if there are none on either side, or labels on both
/// that are not the same.
pub proof fn law_the_number_of_labels(
    configured: Option<HashMap<u32, String>>,
    given: Option<HashMap<u32, String>>,
    same: bool,
    res: Result<usize, LabelError>,
)
    requires
        call_ensures(id2label_len, (&configured, given), res),
        configured is Some && given is Some ==> call_ensures(
            same_labels,
            (&configured->0, &given->0),
            same,
        ),
    ensures
        res == Err::<usize, LabelError>(LabelError::Missing) <==> configured is None && given is None,
        res == Err::<usize, LabelError>(LabelError::Different) <==> configured is Some
            && given is Some && !same,
        res matches Ok(n) ==> {
            &&& configured matches Some(c) ==> n == c@.len()
            &&& configured is None ==> given is Some && n == (given->0)@.len()
        },
{
}

} // verus!
