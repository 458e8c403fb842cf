//! Top-K selection: the entries with the largest counts, count-descending.
//!
//! Ties between equal counts are broken deterministically: the entry that
//! entered the table first (first-seen order) is ranked first.

use crate::table::{Entry, FrequencyTable};
use vstd::prelude::*;

verus! {

/// `e` carries the key and count of some entry of the table.
pub open spec fn from_table(t: FrequencyTable, e: Entry) -> bool {
    exists|i: int| 0 <= i < t.num_keys() && t.key(i) == e.key@ && t.count(i) == e.count
}

/// Entry `i` of the table is represented, key and count, in `s`.
pub open spec fn represented_in(s: Seq<Entry>, t: FrequencyTable, i: int) -> bool {
    exists|j: int| 0 <= j < s.len() && s[j].key@ == t.key(i) && s[j].count == t.count(i)
}

/// The key of table entry `i` occurs in `s`.
pub open spec fn key_shown_in(s: Seq<Entry>, t: FrequencyTable, i: int) -> bool {
    exists|j: int| 0 <= j < s.len() && s[j].key@ == t.key(i)
}

/// Selects the `k` entries with the largest counts, sorted by count
/// descending; with fewer than `k` distinct keys, all of them.
pub fn top_k(t: &FrequencyTable, k: usize) -> (r: Vec<Entry>)
    requires
        t.wf(),
    ensures
        r@.len() == if k as int <= t.num_keys() {
            k as int
        } else {
            t.num_keys()
        },
        forall|a: int, b: int| 0 <= a < b < r@.len() ==> r@[b].count <= r@[a].count,
        forall|j: int| 0 <= j < r@.len() ==> from_table(*t, #[trigger] r@[j]),
        forall|j1: int, j2: int| 0 <= j1 < j2 < r@.len() ==> r@[j1].key@ != r@[j2].key@,
        forall|i: int|
            0 <= i < t.num_keys() && r@.len() > 0 && !key_shown_in(r@, *t, i) ==> #[trigger] t.count(
                i,
            ) <= r@[r@.len() - 1].count,
{
    let n: usize = t.len();
    let m: usize = if k <= n {
        k
    } else {
        n
    };
    let mut rest: Vec<Entry> = Vec::new();
    let mut i: usize = 0;
    while i < n
        invariant
            i <= n,
            n == t.num_keys(),
            rest@.len() == i,
            forall|j: int|
                0 <= j < i ==> (#[trigger] rest@[j]).key@ == t.key(j) && rest@[j].count == t.count(
                    j,
                ),
        decreases n - i,
    {
        rest.push(Entry { key: t.key_at(i).clone(), count: t.count_at(i) });
        i += 1;
    }
    let mut out: Vec<Entry> = Vec::new();
    proof {
        assert forall|i2: int| 0 <= i2 < n implies represented_in(rest@, *t, i2) by {
            assert(rest@[i2].key@ == t.key(i2) && rest@[i2].count == t.count(i2));
        }
        assert forall|j1: int, j2: int|
            0 <= j1 < j2 < rest@.len() implies rest@[j1].key@ != rest@[j2].key@ by {
            assert(rest@[j1].key@ == t.key(j1));
            assert(rest@[j2].key@ == t.key(j2));
        }
    }
    while out.len() < m
        invariant
            t.wf(),
            m <= n,
            n == t.num_keys(),
            out@.len() + rest@.len() == n,
            out@.len() <= m,
            forall|a: int, b: int| 0 <= a < b < out@.len() ==> out@[b].count <= out@[a].count,
            forall|j: int|
                0 <= j < rest@.len() && out@.len() > 0 ==> (#[trigger] rest@[j]).count
                    <= out@[out@.len() - 1].count,
            forall|j: int| 0 <= j < out@.len() ==> from_table(*t, #[trigger] out@[j]),
            forall|j: int| 0 <= j < rest@.len() ==> from_table(*t, #[trigger] rest@[j]),
            forall|i2: int|
                0 <= i2 < n ==> represented_in(out@, *t, i2) || represented_in(rest@, *t, i2),
            forall|j1: int, j2: int|
                0 <= j1 < j2 < out@.len() ==> out@[j1].key@ != out@[j2].key@,
            forall|j1: int, j2: int|
                0 <= j1 < j2 < rest@.len() ==> rest@[j1].key@ != rest@[j2].key@,
            forall|j1: int, j2: int|
                0 <= j1 < out@.len() && 0 <= j2 < rest@.len() ==> out@[j1].key@ != rest@[j2].key@,
        decreases m - out.len(),
    {
        let rn: usize = rest.len();
        let mut bi: usize = 0;
        let mut j: usize = 1;
        while j < rn
            invariant
                1 <= j <= rn,
                bi < j,
                rn == rest@.len(),
                forall|j2: int| 0 <= j2 < j ==> (#[trigger] rest@[j2]).count <= rest@[bi as int].count,
            decreases rn - j,
        {
            if rest[j].count > rest[bi].count {
                bi = j;
            }
            j += 1;
        }
        let chosen = Entry { key: rest[bi].key.clone(), count: rest[bi].count };
        let ghost old_out = out@;
        let ghost old_rest = rest@;
        out.push(chosen);
        rest.remove(bi);
        proof {
            let gb = bi as int;
            let ol = old_out.len() as int;
            assert(forall|j2: int| 0 <= j2 < ol ==> out@[j2] == old_out[j2]);
            assert(out@.len() == ol + 1);
            assert(out@[ol].key@ == old_rest[gb].key@);
            assert(out@[ol].count == old_rest[gb].count);
            assert(from_table(*t, out@[ol])) by {
                assert(from_table(*t, old_rest[gb]));
                let w = choose|w: int|
                    0 <= w < t.num_keys() && t.key(w) == old_rest[gb].key@ && t.count(w)
                        == old_rest[gb].count;
                assert(0 <= w < t.num_keys() && t.key(w) == out@[ol].key@ && t.count(w)
                    == out@[ol].count);
            }
            assert(rest@ == old_rest.remove(gb));
            assert forall|j2: int| 0 <= j2 < rest@.len() implies (#[trigger] rest@[j2]).count
                <= out@[out@.len() - 1].count by {
                if j2 < gb {
                    assert(rest@[j2] == old_rest[j2]);
                } else {
                    assert(rest@[j2] == old_rest[j2 + 1]);
                }
            }
            assert forall|i2: int|
                0 <= i2 < n implies represented_in(out@, *t, i2) || represented_in(
                rest@,
                *t,
                i2,
            ) by {
                if represented_in(old_out, *t, i2) {
                    let w = choose|w: int|
                        0 <= w < old_out.len() && old_out[w].key@ == t.key(i2) && old_out[w].count
                            == t.count(i2);
                    assert(out@[w].key@ == t.key(i2) && out@[w].count == t.count(i2));
                } else {
                    let w = choose|w: int|
                        0 <= w < old_rest.len() && old_rest[w].key@ == t.key(i2)
                            && old_rest[w].count == t.count(i2);
                    if w == gb {
                        assert(out@[out@.len() - 1].key@ == t.key(i2));
                        assert(out@[out@.len() - 1].count == t.count(i2));
                    } else if w < gb {
                        assert(rest@[w].key@ == t.key(i2) && rest@[w].count == t.count(i2));
                    } else {
                        assert(rest@[w - 1].key@ == t.key(i2) && rest@[w - 1].count == t.count(
                            i2,
                        ));
                    }
                }
            }
            assert forall|j1: int, j2: int|
                0 <= j1 < j2 < rest@.len() implies rest@[j1].key@ != rest@[j2].key@ by {
                assert(rest@[j1] == if j1 < gb {
                    old_rest[j1]
                } else {
                    old_rest[j1 + 1]
                });
                assert(rest@[j2] == if j2 < gb {
                    old_rest[j2]
                } else {
                    old_rest[j2 + 1]
                });
            }
            assert forall|j1: int, j2: int|
                0 <= j1 < out@.len() && 0 <= j2 < rest@.len() implies out@[j1].key@
                != rest@[j2].key@ by {
                assert(rest@[j2] == if j2 < gb {
                    old_rest[j2]
                } else {
                    old_rest[j2 + 1]
                });
                if j1 < old_out.len() {
                    assert(out@[j1] == old_out[j1]);
                } else {
                    assert(out@[j1].key@ == old_rest[gb].key@);
                }
            }
        }
    }
    proof {
        assert forall|i2: int|
            0 <= i2 < t.num_keys() && out@.len() > 0 && !key_shown_in(out@, *t, i2) implies t.count(
            i2,
        ) <= out@[out@.len() - 1].count by {
            if represented_in(out@, *t, i2) {
                let w = choose|w: int|
                    0 <= w < out@.len() && out@[w].key@ == t.key(i2) && out@[w].count == t.count(
                        i2,
                    );
                assert(out@[w].key@ == t.key(i2));
                assert(key_shown_in(out@, *t, i2));
            } else {
                assert(represented_in(rest@, *t, i2));
                let w = choose|w: int|
                    0 <= w < rest@.len() && rest@[w].key@ == t.key(i2) && rest@[w].count == t.count(
                        i2,
                    );
                assert(rest@[w].count <= out@[out@.len() - 1].count);
            }
        }
    }
    out
}

} // verus!
