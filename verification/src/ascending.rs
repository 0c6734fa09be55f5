//! Strictly ascending sequences are determined by their members.

use vstd::prelude::*;

verus! {

/// Each entry of `s` is smaller than every later one.
pub open spec fn strictly_ascending(s: Seq<int>) -> bool {
    forall|j: int, k: int| 0 <= j < k < s.len() ==> #[trigger] s[j] < #[trigger] s[k]
}

/// Two strictly ascending sequences with the same members are equal.
pub proof fn lemma_ascending_unique(a: Seq<int>, b: Seq<int>)
    requires
        strictly_ascending(a),
        strictly_ascending(b),
        forall|x: int| a.contains(x) <==> b.contains(x),
    ensures
        a == b,
    decreases a.len(),
{
    if a.len() == 0 {
        if b.len() > 0 {
            assert(b.contains(b[0]));
        }
        assert(a =~= b);
    } else {
        assert(a.contains(a.last()));
        assert(b.contains(a.last()));
        assert(b.contains(b.last()));
        assert(a.contains(b.last()));
        let ka = choose|k: int| 0 <= k < a.len() && a[k] == b.last();
        let kb = choose|k: int| 0 <= k < b.len() && b[k] == a.last();
        assert(a.last() == b.last()) by {
            if ka < a.len() - 1 {
                assert(a[ka] < a[a.len() - 1]);
            }
            if kb < b.len() - 1 {
                assert(b[kb] < b[b.len() - 1]);
            }
        }
        let a0 = a.drop_last();
        let b0 = b.drop_last();
        assert forall|x: int| a0.contains(x) <==> b0.contains(x) by {
            if a0.contains(x) {
                let k = choose|k: int| 0 <= k < a0.len() && a0[k] == x;
                assert(a[k] == x);
                assert(a[k] < a[a.len() - 1]);
                assert(a.contains(x));
                let m = choose|m: int| 0 <= m < b.len() && b[m] == x;
                assert(b0[m] == x);
            }
            if b0.contains(x) {
                let k = choose|k: int| 0 <= k < b0.len() && b0[k] == x;
                assert(b[k] == x);
                assert(b[k] < b[b.len() - 1]);
                assert(b.contains(x));
                let m = choose|m: int| 0 <= m < a.len() && a[m] == x;
                assert(a0[m] == x);
            }
        }
        lemma_ascending_unique(a0, b0);
        assert(a =~= a0.push(a.last()));
        assert(b =~= b0.push(b.last()));
    }
}

} // verus!
