//! Searching sequences of ids, the common ground of rooms and registries.

use vstd::prelude::*;

verus! {

/// The first index at or after `from` where `ids` holds `id`, or -1 if there is none.
pub open spec fn first_from(ids: Seq<Seq<char>>, id: Seq<char>, from: int) -> int
    decreases ids.len() - from,
{
    if from < 0 || from >= ids.len() {
        -1
    } else if ids[from] == id {
        from
    } else {
        first_from(ids, id, from + 1)
    }
}

/// The first index where `ids` holds `id`, or -1 if there is none.
pub open spec fn position(ids: Seq<Seq<char>>, id: Seq<char>) -> int {
    first_from(ids, id, 0)
}

/// No id occurs twice.
pub open spec fn unique(ids: Seq<Seq<char>>) -> bool {
    forall|i: int, j: int| 0 <= i < j < ids.len() ==> ids[i] != ids[j]
}

pub proof fn lemma_first_from(ids: Seq<Seq<char>>, id: Seq<char>, from: int)
    requires
        0 <= from,
    ensures
        first_from(ids, id, from) == -1 ==> forall|i: int| from <= i < ids.len() ==> ids[i] != id,
        first_from(ids, id, from) != -1 ==> {
            let k = first_from(ids, id, from);
            &&& from <= k < ids.len()
            &&& ids[k] == id
            &&& forall|i: int| from <= i < k ==> ids[i] != id
        },
    decreases ids.len() - from,
{
    if from < ids.len() && ids[from] != id {
        lemma_first_from(ids, id, from + 1);
    }
}

/// `position` is -1 exactly when the id is absent, and otherwise its first occurrence.
pub proof fn lemma_position(ids: Seq<Seq<char>>, id: Seq<char>)
    ensures
        position(ids, id) == -1 <==> forall|i: int| 0 <= i < ids.len() ==> ids[i] != id,
        position(ids, id) != -1 ==> {
            let k = position(ids, id);
            &&& 0 <= k < ids.len()
            &&& ids[k] == id
            &&& forall|i: int| 0 <= i < k ==> ids[i] != id
        },
{
    lemma_first_from(ids, id, 0);
}

/// In a sequence without repeats, an id that occurs is found where it occurs.
pub proof fn lemma_unique_position(ids: Seq<Seq<char>>, i: int)
    requires
        unique(ids),
        0 <= i < ids.len(),
    ensures
        position(ids, ids[i]) == i,
{
    lemma_position(ids, ids[i]);
}

} // verus!
