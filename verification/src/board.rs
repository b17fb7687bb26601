//! The scoreboard line: one entry per player, the own player first and the
//! others in order of id.
use vstd::prelude::*;

verus! {

/// One scoreboard entry: id, territory size and color.
pub type Entry = (u32, usize, (u8, u8, u8));

/// Ids strictly increase along the list.
pub open spec fn ids_increasing(s: Seq<Entry>) -> bool {
    forall|i: int, j: int| 0 <= i < j < s.len() ==> (#[trigger] s[i]).0 < (#[trigger] s[j]).0
}

/// The entries, ordered by id; the ids must be distinct.
pub fn sort_by_id(entries: &Vec<Entry>) -> (r: Vec<Entry>)
    requires
        forall|i: int, j: int|
            0 <= i < entries@.len() && 0 <= j < entries@.len() && i != j ==> (#[trigger] entries@[i]).0
                != (#[trigger] entries@[j]).0,
    ensures
        r@.len() == entries@.len(),
        ids_increasing(r@),
        forall|k: int| 0 <= k < entries@.len() ==> r@.contains(#[trigger] entries@[k]),
        forall|k: int| 0 <= k < r@.len() ==> entries@.contains(#[trigger] r@[k]),
{
    let mut r: Vec<Entry> = Vec::new();
    let mut i: usize = 0;
    while i < entries.len()
        invariant
            i <= entries@.len(),
            forall|a: int, b: int|
                0 <= a < entries@.len() && 0 <= b < entries@.len() && a != b ==> (#[trigger] entries@[a]).0
                    != (#[trigger] entries@[b]).0,
            r@.len() == i,
            ids_increasing(r@),
            forall|k: int| 0 <= k < i ==> r@.contains(#[trigger] entries@[k]),
            forall|k: int| 0 <= k < r@.len() ==> entries@.take(i as int).contains(#[trigger] r@[k]),
        decreases entries@.len() - i,
    {
        let e: Entry = entries[i];
        let mut pos: usize = 0;
        while pos < r.len() && r[pos].0 < e.0
            invariant
                pos <= r@.len(),
                forall|k: int| 0 <= k < pos ==> (#[trigger] r@[k]).0 < e.0,
            decreases r@.len() - pos,
        {
            pos = pos + 1;
        }
        let ghost old_r = r@;
        proof {
            assert forall|k: int| pos <= k < old_r.len() implies (#[trigger] old_r[k]).0 > e.0 by {
                let w = old_r[k];
                assert(entries@.take(i as int).contains(w));
                let a = choose|a: int| 0 <= a < i && entries@.take(i as int)[a] == w;
                assert(entries@[a] == w);
                assert(entries@[a].0 != entries@[i as int].0);
                if pos < old_r.len() {
                    assert(!(old_r[pos as int].0 < e.0));
                    if k > pos {
                        assert(old_r[pos as int].0 < old_r[k].0);
                    }
                }
            }
        }
        r.insert(pos, e);
        proof {
            assert(r@ == old_r.insert(pos as int, e));
            assert forall|a: int, b: int| 0 <= a < b < r@.len() implies (#[trigger] r@[a]).0 < (#[trigger] r@[b]).0 by {
                if b < pos {
                    assert(r@[a] == old_r[a] && r@[b] == old_r[b]);
                } else if b == pos {
                    assert(r@[a] == old_r[a]);
                } else if a < pos {
                    assert(r@[a] == old_r[a] && r@[b] == old_r[b - 1]);
                } else if a == pos {
                    assert(r@[b] == old_r[b - 1]);
                } else {
                    assert(r@[a] == old_r[a - 1] && r@[b] == old_r[b - 1]);
                }
            }
            assert forall|k: int| 0 <= k < i + 1 implies r@.contains(#[trigger] entries@[k]) by {
                if k < i {
                    let w = entries@[k];
                    assert(old_r.contains(w));
                    let a = choose|a: int| 0 <= a < old_r.len() && old_r[a] == w;
                    if a < pos {
                        assert(r@[a] == w);
                    } else {
                        assert(r@[a + 1] == w);
                    }
                } else {
                    assert(r@[pos as int] == e);
                }
            }
            assert forall|k: int| 0 <= k < r@.len() implies entries@.take(i as int + 1).contains(#[trigger] r@[k]) by {
                let w = r@[k];
                if k == pos {
                    assert(entries@.take(i as int + 1)[i as int] == e);
                } else {
                    let kk = if k < pos { k } else { k - 1 };
                    assert(w == old_r[kk]);
                    assert(entries@.take(i as int).contains(w));
                    let a = choose|a: int| 0 <= a < i && entries@.take(i as int)[a] == w;
                    assert(entries@.take(i as int + 1)[a] == w);
                }
            }
        }
        i = i + 1;
    }
    proof {
        assert(entries@.take(i as int) =~= entries@);
    }
    r
}

} // verus!
