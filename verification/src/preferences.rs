//! Preferences of an instance: values stored under a category and a key (aliases,
//! configuration), read, written and deleted one at a time.

use vstd::prelude::*;
use crate::text::str_is;

verus! {

/// A stored preference.
#[derive(Clone, Debug)]
pub struct Preference {
    pub category: String,
    pub key: String,
    pub value: String,
}

pub open spec fn pref_view(p: Preference) -> (Seq<char>, Seq<char>, Seq<char>) {
    (p.category@, p.key@, p.value@)
}

pub open spec fn prefs_view(ps: Seq<Preference>) -> Seq<(Seq<char>, Seq<char>, Seq<char>)> {
    ps.map_values(|p: Preference| pref_view(p))
}

/// The position of the preference under `(category, key)`, if any.
pub open spec fn pref_index(ps: Seq<(Seq<char>, Seq<char>, Seq<char>)>, category: Seq<char>, key: Seq<char>) -> Option<int>
    decreases ps.len(),
{
    if ps.len() == 0 {
        None
    } else {
        match pref_index(ps.drop_last(), category, key) {
            Some(i) => Some(i),
            None => if ps.last().0 == category && ps.last().1 == key { Some(ps.len() - 1) } else { None },
        }
    }
}

/// The value stored under `(category, key)`, if any.
pub open spec fn pref_get(ps: Seq<(Seq<char>, Seq<char>, Seq<char>)>, category: Seq<char>, key: Seq<char>) -> Option<Seq<char>> {
    match pref_index(ps, category, key) {
        Some(i) => Some(ps[i].2),
        None => None,
    }
}

/// The preferences after setting a value: the existing row is updated, or a row added.
pub open spec fn pref_set(ps: Seq<(Seq<char>, Seq<char>, Seq<char>)>, category: Seq<char>, key: Seq<char>, value: Seq<char>) -> Seq<(Seq<char>, Seq<char>, Seq<char>)> {
    match pref_index(ps, category, key) {
        Some(i) => ps.update(i, (category, key, value)),
        None => ps.push((category, key, value)),
    }
}

/// The preferences after deleting a value.
pub open spec fn pref_delete(ps: Seq<(Seq<char>, Seq<char>, Seq<char>)>, category: Seq<char>, key: Seq<char>) -> Seq<(Seq<char>, Seq<char>, Seq<char>)> {
    match pref_index(ps, category, key) {
        Some(i) => ps.remove(i),
        None => ps,
    }
}

/// No two rows share a category and key.
pub open spec fn prefs_unique(ps: Seq<(Seq<char>, Seq<char>, Seq<char>)>) -> bool {
    forall|i: int, j: int| 0 <= i < j < ps.len() ==> !((#[trigger] ps[i]).0 == (#[trigger] ps[j]).0 && ps[i].1 == ps[j].1)
}

proof fn lemma_pref_index(ps: Seq<(Seq<char>, Seq<char>, Seq<char>)>, c: Seq<char>, k: Seq<char>)
    ensures
        pref_index(ps, c, k) matches Some(i) ==> 0 <= i < ps.len() && ps[i].0 == c && ps[i].1 == k
            && forall|j: int| 0 <= j < i ==> !((#[trigger] ps[j]).0 == c && ps[j].1 == k),
        pref_index(ps, c, k) is None ==> forall|j: int| 0 <= j < ps.len() ==> !((#[trigger] ps[j]).0 == c && ps[j].1 == k),
    decreases ps.len(),
{
    if ps.len() > 0 {
        lemma_pref_index(ps.drop_last(), c, k);
        assert forall|j: int| 0 <= j < ps.len() - 1 implies ps.drop_last()[j] == ps[j] by {}
    }
}

proof fn lemma_pref_index_first(ps: Seq<(Seq<char>, Seq<char>, Seq<char>)>, c: Seq<char>, k: Seq<char>, i: int)
    requires
        0 <= i < ps.len(),
        ps[i].0 == c && ps[i].1 == k,
        forall|j: int| 0 <= j < i ==> !((#[trigger] ps[j]).0 == c && ps[j].1 == k),
    ensures
        pref_index(ps, c, k) == Some(i),
    decreases ps.len(),
{
    lemma_pref_index(ps, c, k);
    if i < ps.len() - 1 {
        assert forall|j: int| 0 <= j < i implies !((#[trigger] ps.drop_last()[j]).0 == c && ps.drop_last()[j].1 == k) by {
            assert(ps.drop_last()[j] == ps[j]);
        }
        assert(ps.drop_last()[i] == ps[i]);
        lemma_pref_index_first(ps.drop_last(), c, k, i);
    } else {
        lemma_pref_index(ps.drop_last(), c, k);
        assert forall|j: int| 0 <= j < ps.drop_last().len() implies !((#[trigger] ps.drop_last()[j]).0 == c && ps.drop_last()[j].1 == k) by {
            assert(ps.drop_last()[j] == ps[j]);
        }
    }
}

proof fn lemma_pref_none(ps: Seq<(Seq<char>, Seq<char>, Seq<char>)>, c: Seq<char>, k: Seq<char>)
    requires
        forall|j: int| 0 <= j < ps.len() ==> !((#[trigger] ps[j]).0 == c && ps[j].1 == k),
    ensures
        pref_index(ps, c, k) is None,
{
    lemma_pref_index(ps, c, k);
    if pref_index(ps, c, k) is Some {
        let i = pref_index(ps, c, k)->0;
        assert(ps[i].0 == c && ps[i].1 == k);
    }
}

/// A read after a write gives what was written; the other preferences read as before.
/// After a delete, the preference is gone and the others read as before.
pub proof fn law_set_then_get(
    ps: Seq<(Seq<char>, Seq<char>, Seq<char>)>,
    c: Seq<char>,
    k: Seq<char>,
    v: Seq<char>,
    c2: Seq<char>,
    k2: Seq<char>,
)
    requires
        prefs_unique(ps),
    ensures
        pref_get(pref_set(ps, c, k, v), c, k) == Some(v),
        !(c2 == c && k2 == k) ==> pref_get(pref_set(ps, c, k, v), c2, k2) == pref_get(ps, c2, k2),
        prefs_unique(pref_set(ps, c, k, v)),
        pref_get(pref_delete(ps, c, k), c, k) is None,
        !(c2 == c && k2 == k) ==> pref_get(pref_delete(ps, c, k), c2, k2) == pref_get(ps, c2, k2),
        prefs_unique(pref_delete(ps, c, k)),
{
    lemma_pref_index(ps, c, k);
    lemma_pref_index(ps, c2, k2);
    let s = pref_set(ps, c, k, v);
    let d = pref_delete(ps, c, k);
    match pref_index(ps, c, k) {
        Some(i) => {
            assert forall|j: int| 0 <= j < i implies !((#[trigger] s[j]).0 == c && s[j].1 == k) by {
                assert(s[j] == ps[j]);
            }
            lemma_pref_index_first(s, c, k, i);
            assert forall|a: int, b: int| 0 <= a < b < s.len() implies !((#[trigger] s[a]).0 == (#[trigger] s[b]).0 && s[a].1 == s[b].1) by {
                if a != i {
                    assert(s[a] == ps[a]);
                }
                if b != i {
                    assert(s[b] == ps[b]);
                }
            }
            // the row under (c, k) was the only one, so deleting it leaves none
            assert forall|j: int| 0 <= j < d.len() implies !((#[trigger] d[j]).0 == c && d[j].1 == k) by {
                if j < i {
                    assert(d[j] == ps[j]);
                } else {
                    assert(d[j] == ps[j + 1]);
                }
            }
            lemma_pref_none(d, c, k);
            assert forall|a: int, b: int| 0 <= a < b < d.len() implies !((#[trigger] d[a]).0 == (#[trigger] d[b]).0 && d[a].1 == d[b].1) by {
                let a0 = if a < i { a } else { a + 1 };
                let b0 = if b < i { b } else { b + 1 };
                assert(d[a] == ps[a0]);
                assert(d[b] == ps[b0]);
            }
            if !(c2 == c && k2 == k) {
                match pref_index(ps, c2, k2) {
                    Some(j) => {
                        assert(j != i);
                        assert forall|x: int| 0 <= x < j implies !((#[trigger] s[x]).0 == c2 && s[x].1 == k2) by {
                            if x != i {
                                assert(s[x] == ps[x]);
                            }
                        }
                        assert(s[j] == ps[j]);
                        lemma_pref_index_first(s, c2, k2, j);
                        let jd = if j < i { j } else { j - 1 };
                        assert(d[jd] == ps[j]);
                        assert forall|x: int| 0 <= x < jd implies !((#[trigger] d[x]).0 == c2 && d[x].1 == k2) by {
                            if x < i {
                                assert(d[x] == ps[x]);
                            } else {
                                assert(d[x] == ps[x + 1]);
                            }
                        }
                        lemma_pref_index_first(d, c2, k2, jd);
                    },
                    None => {
                        assert forall|x: int| 0 <= x < s.len() implies !((#[trigger] s[x]).0 == c2 && s[x].1 == k2) by {
                            if x != i {
                                assert(s[x] == ps[x]);
                            }
                        }
                        lemma_pref_none(s, c2, k2);
                        assert forall|x: int| 0 <= x < d.len() implies !((#[trigger] d[x]).0 == c2 && d[x].1 == k2) by {
                            if x < i {
                                assert(d[x] == ps[x]);
                            } else {
                                assert(d[x] == ps[x + 1]);
                            }
                        }
                        lemma_pref_none(d, c2, k2);
                    },
                }
            }
        },
        None => {
            assert forall|j: int| 0 <= j < ps.len() implies !((#[trigger] s[j]).0 == c && s[j].1 == k) by {
                assert(s[j] == ps[j]);
            }
            lemma_pref_index_first(s, c, k, ps.len() as int);
            assert forall|a: int, b: int| 0 <= a < b < s.len() implies !((#[trigger] s[a]).0 == (#[trigger] s[b]).0 && s[a].1 == s[b].1) by {
                assert(s[a] == ps[a]);
                if b < ps.len() {
                    assert(s[b] == ps[b]);
                }
            }
            if !(c2 == c && k2 == k) {
                match pref_index(ps, c2, k2) {
                    Some(j) => {
                        assert forall|x: int| 0 <= x < j implies !((#[trigger] s[x]).0 == c2 && s[x].1 == k2) by {
                            assert(s[x] == ps[x]);
                        }
                        assert(s[j] == ps[j]);
                        lemma_pref_index_first(s, c2, k2, j);
                    },
                    None => {
                        assert forall|x: int| 0 <= x < s.len() implies !((#[trigger] s[x]).0 == c2 && s[x].1 == k2) by {
                            if x < ps.len() {
                                assert(s[x] == ps[x]);
                            }
                        }
                        lemma_pref_none(s, c2, k2);
                    },
                }
            }
        },
    }
}

fn find_pref(ps: &Vec<Preference>, category: &str, key: &str) -> (r: Option<usize>)
    ensures
        r matches Some(i) ==> pref_index(prefs_view(ps@), category@, key@) == Some(i as int) && i < ps@.len(),
        r is None ==> pref_index(prefs_view(ps@), category@, key@) is None,
{
    let ghost pv = prefs_view(ps@);
    let mut i: usize = 0;
    while i < ps.len()
        invariant
            i <= ps@.len(),
            pv == prefs_view(ps@),
            pv.len() == ps@.len(),
            forall|j: int| 0 <= j < i ==> !((#[trigger] pv[j]).0 == category@ && pv[j].1 == key@),
        decreases ps@.len() - i,
    {
        if str_is(ps[i].category.as_str(), category) && str_is(ps[i].key.as_str(), key) {
            proof {
                lemma_pref_index_first(pv, category@, key@, i as int);
            }
            return Some(i);
        }
        i = i + 1;
    }
    proof {
        lemma_pref_none(pv, category@, key@);
    }
    None
}

/// The value of a preference, if set.
pub fn get_preference(ps: &Vec<Preference>, category: &str, key: &str) -> (r: Option<String>)
    ensures
        match r {
            Some(v) => pref_get(prefs_view(ps@), category@, key@) == Some(v@),
            None => pref_get(prefs_view(ps@), category@, key@) is None,
        },
{
    match find_pref(ps, category, key) {
        Some(i) => {
            assert(prefs_view(ps@)[i as int] == pref_view(ps@[i as int]));
            Some(ps[i].value.clone())
        },
        None => None,
    }
}

/// Set a preference: update its value, or add it.
pub fn set_preference(ps: &mut Vec<Preference>, category: &str, key: &str, value: &str)
    ensures
        prefs_view(final(ps)@) == pref_set(prefs_view(old(ps)@), category@, key@, value@),
{
    let row = Preference { category: category.to_string(), key: key.to_string(), value: value.to_string() };
    let ghost before = ps@;
    match find_pref(ps, category, key) {
        Some(i) => {
            let _old = ps.remove(i);
            ps.insert(i, row);
            assert(ps@ =~= before.update(i as int, row));
        },
        None => {
            ps.push(row);
        },
    }
    assert(prefs_view(ps@) =~= pref_set(prefs_view(before), category@, key@, value@));
}

/// Delete a preference; `false` when it was not set.
pub fn delete_preference(ps: &mut Vec<Preference>, category: &str, key: &str) -> (deleted: bool)
    ensures
        deleted == (pref_index(prefs_view(old(ps)@), category@, key@) is Some),
        prefs_view(final(ps)@) == pref_delete(prefs_view(old(ps)@), category@, key@),
{
    let ghost before = ps@;
    match find_pref(ps, category, key) {
        Some(i) => {
            let _old = ps.remove(i);
            assert(prefs_view(ps@) =~= prefs_view(before).remove(i as int));
            true
        },
        None => false,
    }
}

} // verus!
