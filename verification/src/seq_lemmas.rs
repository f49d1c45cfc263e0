//! Facts about sequences.

use vstd::prelude::*;

verus! {

/// The first `count + 1` of some values hold one value besides the first `count` of them.
pub(crate) proof fn lemma_take_contains<T>(values: Seq<T>, count: int)
    requires
        0 <= count < values.len(),
    ensures
        forall|value: T| #[trigger]
            values.take(count + 1).contains(value) <==> values.take(count).contains(value) || value
                == values[count],
{
    let few = values.take(count);
    let more = values.take(count + 1);
    assert forall|value: T| #[trigger] more.contains(value) <==> few.contains(value) || value
        == values[count] by {
        if few.contains(value) {
            let i = choose|i: int| 0 <= i < few.len() && few[i] == value;
            assert(more[i] == value);
        }
        if more.contains(value) {
            let i = choose|i: int| 0 <= i < more.len() && more[i] == value;
            if i < count {
                assert(few[i] == value);
            }
        }
        assert(more[count] == values[count]);
    }
}

} // verus!
