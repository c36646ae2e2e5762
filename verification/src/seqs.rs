//! Facts about id sequences: inserting, removing, moving and filtering out an id.
use vstd::prelude::*;

verus! {

/// Inserting `e` at `at` gives the old ids and `e`; with no repeats before
/// and `e` new, there are none after.
pub proof fn lemma_insert_ids(s: Seq<u64>, at: int, e: u64)
    requires
        0 <= at <= s.len(),
    ensures
        s.insert(at, e).len() == s.len() + 1,
        forall|y: u64| s.insert(at, e).contains(y) <==> (s.contains(y) || y == e),
        s.no_duplicates() && !s.contains(e) ==> s.insert(at, e).no_duplicates(),
{
    let t = s.insert(at, e);
    s.insert_ensures(at, e);
    assert forall|y: u64| t.contains(y) <==> (s.contains(y) || y == e) by {
        if t.contains(y) {
            let i = choose|i: int| 0 <= i < t.len() && t[i] == y;
            if i < at {
                assert(s[i] == y);
            } else if i > at {
                assert(s[i - 1] == y);
            }
        }
        if s.contains(y) {
            let i = choose|i: int| 0 <= i < s.len() && s[i] == y;
            if i < at {
                assert(t[i] == y);
            } else {
                assert(t[i + 1] == y);
            }
        }
        if y == e {
            assert(t[at] == y);
        }
    }
    if s.no_duplicates() && !s.contains(e) {
        assert forall|i: int, j: int| 0 <= i < t.len() && 0 <= j < t.len() && i != j implies t[i] != t[j] by {
            let si = if i < at { i } else { i - 1 };
            let sj = if j < at { j } else { j - 1 };
            if i == at {
                assert(s[sj] == t[j]);
            } else if j == at {
                assert(s[si] == t[i]);
            } else {
                assert(s[si] == t[i]);
                assert(s[sj] == t[j]);
            }
        }
    }
}

/// Removing the id at `pos` keeps the others; with no repeats it takes that id out.
pub proof fn lemma_remove_ids(s: Seq<u64>, pos: int)
    requires
        0 <= pos < s.len(),
    ensures
        s.remove(pos).len() == s.len() - 1,
        forall|y: u64| s.remove(pos).contains(y) ==> s.contains(y),
        forall|y: u64| s.contains(y) && y != s[pos] ==> s.remove(pos).contains(y),
        s.no_duplicates() ==> s.remove(pos).no_duplicates() && !s.remove(pos).contains(s[pos]),
{
    let r = s.remove(pos);
    s.remove_ensures(pos);
    assert forall|y: u64| r.contains(y) implies s.contains(y) by {
        let i = choose|i: int| 0 <= i < r.len() && r[i] == y;
        if i < pos {
            assert(s[i] == y);
        } else {
            assert(s[i + 1] == y);
        }
    }
    assert forall|y: u64| s.contains(y) && y != s[pos] implies r.contains(y) by {
        let i = choose|i: int| 0 <= i < s.len() && s[i] == y;
        if i < pos {
            assert(r[i] == y);
        } else {
            assert(i != pos);
            assert(r[i - 1] == y);
        }
    }
    if s.no_duplicates() {
        assert forall|i: int, j: int| 0 <= i < r.len() && 0 <= j < r.len() && i != j implies r[i] != r[j] by {
            let si = if i < pos { i } else { i + 1 };
            let sj = if j < pos { j } else { j + 1 };
            assert(s[si] == r[i]);
            assert(s[sj] == r[j]);
        }
        if r.contains(s[pos]) {
            let i = choose|i: int| 0 <= i < r.len() && r[i] == s[pos];
            let si = if i < pos { i } else { i + 1 };
            assert(s[si] == r[i]);
        }
    }
}

/// Moving an id keeps the same ids, without repeats when there were none.
pub proof fn lemma_reorder_ids(s: Seq<u64>, pos: int, index: Option<usize>)
    requires
        0 <= pos < s.len(),
        s.no_duplicates(),
    ensures
        forall|y: u64| crate::document::reorder(s, pos, index).contains(y) <==> s.contains(y),
        crate::document::reorder(s, pos, index).no_duplicates(),
{
    let r = s.remove(pos);
    lemma_remove_ids(s, pos);
    let len = s.len() as int;
    let at0 = match index { Some(i) => if i < len { i as int } else { len }, None => len };
    let at = if at0 > pos { at0 - 1 } else { at0 };
    lemma_insert_ids(r, at, s[pos]);
    assert forall|y: u64| crate::document::reorder(s, pos, index).contains(y) <==> s.contains(y) by {
        if y == s[pos] {
            assert(s[pos] == y);
        }
    }
}

/// Filtering out `x` keeps exactly the other ids, and keeps them unrepeated.
pub proof fn lemma_without_ids(s: Seq<u64>, x: u64)
    ensures
        forall|y: u64| crate::document::without(s, x).contains(y) <==> (s.contains(y) && y != x),
        s.no_duplicates() ==> crate::document::without(s, x).no_duplicates(),
        !s.contains(x) ==> crate::document::without(s, x) == s,
        crate::document::without(s, x).len() <= s.len(),
    decreases s.len(),
{
    reveal(Seq::filter);
    let f = s.filter(crate::document::other_than(x));
    if s.len() == 0 {
    } else {
        let d = s.drop_last();
        let last = s.last();
        lemma_without_ids(d, x);
        let fd = d.filter(crate::document::other_than(x));
        assert(s =~= d.push(last));
        assert forall|y: u64| s.contains(y) <==> (d.contains(y) || y == last) by {
            if s.contains(y) {
                let i = choose|i: int| 0 <= i < s.len() && s[i] == y;
                if i < s.len() - 1 {
                    assert(d[i] == y);
                }
            }
            if d.contains(y) {
                let i = choose|i: int| 0 <= i < d.len() && d[i] == y;
                assert(s[i] == y);
            }
        }
        if last != x {
            assert(f == fd.push(last));
            assert forall|y: u64| f.contains(y) <==> (fd.contains(y) || y == last) by {
                if f.contains(y) {
                    let i = choose|i: int| 0 <= i < f.len() && f[i] == y;
                    if i < f.len() - 1 {
                        assert(fd[i] == y);
                    }
                }
                if fd.contains(y) {
                    let i = choose|i: int| 0 <= i < fd.len() && fd[i] == y;
                    assert(f[i] == y);
                }
                if y == last {
                    assert(f[f.len() - 1] == y);
                }
            }
            if s.no_duplicates() {
                assert(d.no_duplicates());
                assert(!d.contains(last)) by {
                    if d.contains(last) {
                        let i = choose|i: int| 0 <= i < d.len() && d[i] == last;
                        assert(s[i] == s[s.len() - 1]);
                    }
                }
                assert(!fd.contains(last));
                assert forall|i: int, j: int| 0 <= i < f.len() && 0 <= j < f.len() && i != j implies f[i] != f[j] by {
                    if i < f.len() - 1 && j < f.len() - 1 {
                        assert(f[i] == fd[i] && f[j] == fd[j]);
                    } else if i < f.len() - 1 {
                        assert(f[i] == fd[i]);
                        assert(fd.contains(fd[i]));
                    } else if j < f.len() - 1 {
                        assert(f[j] == fd[j]);
                        assert(fd.contains(fd[j]));
                    }
                }
            }
            if !s.contains(x) {
                assert(fd == d);
                assert(f =~= s);
            }
        } else {
            assert(f == fd);
            if s.no_duplicates() {
                assert(d.no_duplicates());
            }
        }
    }
}

} // verus!
