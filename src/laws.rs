use vstd::prelude::*;
use crate::flatten::decimal;
use crate::mutate::set_path;
use crate::template::{render_outcome, resolve, TemplateFailure};
use crate::merge::merge_trees;
use crate::value::{find, get, keys_unique, lemma_find, put, Tree};

verus! {

/// After binding `k`, looking `k` up gives the new value.
pub proof fn lemma_get_put(es: Seq<(Seq<char>, Tree)>, k: Seq<char>, t: Tree)
    ensures
        get(put(es, k, t), k) == Some(t),
{
    lemma_find(es, k);
    let p = put(es, k, t);
    lemma_find(p, k);
    if find(es, k) >= 0 {
        assert(p[find(es, k)].0 == k);
    } else {
        assert(p[es.len() as int].0 == k);
    }
}

/// Binding `k` leaves the binding of every other key as it was.
pub proof fn lemma_get_put_other(es: Seq<(Seq<char>, Tree)>, k: Seq<char>, t: Tree, k2: Seq<char>)
    requires
        k2 != k,
    ensures
        get(put(es, k, t), k2) == get(es, k2),
{
    lemma_find(es, k);
    lemma_find(es, k2);
    let p = put(es, k, t);
    lemma_find(p, k2);
    let f = find(es, k2);
    let g = find(p, k2);
    assert(g == f) by {
        if f >= 0 {
            assert(p[f].0 == k2);
            if g == -1 {
                assert(p[f].0 != k2);
            } else if g < f {
                assert(p[g].0 == es[g].0);
            } else if g > f {
                assert(p[f].0 != k2);
            }
        } else if g >= 0 {
            if g < es.len() {
                assert(p[g].0 == es[g].0);
            }
        }
    }
    if f >= 0 {
        assert(p[f] == es[f]);
    }
}

/// Binding `k` twice keeps only the second binding.
pub proof fn lemma_put_put(es: Seq<(Seq<char>, Tree)>, k: Seq<char>, a: Tree, b: Tree)
    ensures
        put(put(es, k, a), k, b) == put(es, k, b),
{
    lemma_find(es, k);
    let p = put(es, k, a);
    lemma_find(p, k);
    let i = find(es, k);
    let f = find(p, k);
    if i >= 0 {
        assert(p[i].0 == k);
        assert(f == i) by {
            if f == -1 {
                assert(p[i].0 != k);
            } else if f > i {
                assert(p[i].0 != k);
            } else if f < i {
                assert(p[f] == es[f]);
                assert(es[f].0 != k);
            }
        }
        assert(put(p, k, b) =~= put(es, k, b));
    } else {
        let n = es.len() as int;
        assert(p[n].0 == k);
        assert(f == n) by {
            if f == -1 {
                assert(p[n].0 != k);
            } else if f < n {
                assert(p[f] == es[f]);
                assert(es[f].0 != k);
            }
        }
        assert(put(p, k, b) =~= put(es, k, b));
    }
}

/// Writing a text at a path and then another text at the same path gives the
/// same tree as the second write alone: only the leaf changes.
pub proof fn lemma_write_twice(es: Seq<(Seq<char>, Tree)>, segs: Seq<Seq<char>>, a: Seq<char>, b: Seq<char>)
    ensures
        set_path(set_path(es, segs, Some(a)), segs, Some(b)) == set_path(es, segs, Some(b)),
    decreases segs.len(),
{
    if segs.len() == 1 {
        lemma_put_put(es, segs[0], Tree::Text(a), Tree::Text(b));
    } else if segs.len() > 1 {
        let k = segs[0];
        let child = match get(es, k) {
            Some(Tree::Mapping(c)) => c,
            _ => Seq::empty(),
        };
        let inner = set_path(child, segs.drop_first(), Some(a));
        lemma_get_put(es, k, Tree::Mapping(inner));
        lemma_write_twice(child, segs.drop_first(), a, b);
        lemma_put_put(es, k, Tree::Mapping(inner), Tree::Mapping(set_path(child, segs.drop_first(), Some(b))));
    }
}

/// A merge leaves the binding of every key that the source does not bind as
/// it was in the destination.
pub proof fn lemma_merge_keeps_destination_only(dst: Seq<(Seq<char>, Tree)>, src: Seq<(Seq<char>, Tree)>, k: Seq<char>)
    requires
        get(src, k) is None,
    ensures
        get(merge_trees(dst, src), k) == get(dst, k),
    decreases src.len(),
{
    if src.len() > 0 {
        lemma_find(src, k);
        let init = src.drop_last();
        lemma_find(init, k);
        if find(init, k) >= 0 {
            assert(src[find(init, k)].0 == k);
        }
        lemma_merge_keeps_destination_only(dst, init, k);
        let acc = merge_trees(dst, init);
        let (k1, t1) = src.last();
        assert(k1 != k);
        match (t1, get(acc, k1)) {
            (Tree::Mapping(sm), Some(Tree::Mapping(dm))) => {
                lemma_get_put_other(acc, k1, Tree::Mapping(merge_trees(dm, sm)), k);
            },
            _ => {
                lemma_get_put_other(acc, k1, t1, k);
            },
        }
    }
}

/// The value of the last entry of `es` whose key is `k`, if any.
pub open spec fn last_get(es: Seq<(Seq<char>, Tree)>, k: Seq<char>) -> Option<Tree>
    decreases es.len(),
{
    if es.len() == 0 {
        None
    } else if es.last().0 == k {
        Some(es.last().1)
    } else {
        last_get(es.drop_last(), k)
    }
}

/// In a mapping whose keys are unique, the last binding of a key is its
/// only one.
pub proof fn lemma_last_get_unique(es: Seq<(Seq<char>, Tree)>, k: Seq<char>)
    requires
        keys_unique(es),
    ensures
        last_get(es, k) == get(es, k),
    decreases es.len(),
{
    lemma_find(es, k);
    if es.len() > 0 {
        let init = es.drop_last();
        let n = es.len() - 1;
        lemma_find(init, k);
        assert(keys_unique(init));
        lemma_last_get_unique(init, k);
        if es[n].0 == k {
            assert(find(es, k) == n) by {
                let f = find(es, k);
                if 0 <= f < n {
                    assert(es[f].0 == es[n].0);
                }
            }
        } else {
            assert(find(init, k) == find(es, k)) by {
                let f = find(es, k);
                let g = find(init, k);
                if f >= 0 {
                    assert(f < n);
                    if g == -1 {
                        assert(init[f].0 != k);
                    } else if g < f {
                        assert(es[g].0 != k);
                    } else if g > f {
                        assert(init[f].0 != k);
                    }
                } else if g >= 0 {
                    assert(es[g].0 != k);
                }
            }
        }
    }
}

/// A merge binds each key whose last binding in the source is a value other
/// than a mapping to that value, whatever the destination held.
pub proof fn lemma_merge_source_scalar_wins(dst: Seq<(Seq<char>, Tree)>, src: Seq<(Seq<char>, Tree)>, k: Seq<char>, t: Tree)
    requires
        last_get(src, k) == Some(t),
        !(t is Mapping),
    ensures
        get(merge_trees(dst, src), k) == Some(t),
    decreases src.len(),
{
    let init = src.drop_last();
    let acc = merge_trees(dst, init);
    let (k1, t1) = src.last();
    if k1 == k {
        lemma_get_put(acc, k, t);
    } else {
        lemma_merge_source_scalar_wins(dst, init, k, t);
        match (t1, get(acc, k1)) {
            (Tree::Mapping(sm), Some(Tree::Mapping(dm))) => {
                lemma_get_put_other(acc, k1, Tree::Mapping(merge_trees(dm, sm)), k);
            },
            _ => {
                lemma_get_put_other(acc, k1, t1, k);
            },
        }
    }
}

/// A merge binds each key that a well-formed source binds to a mapping, and
/// that the destination does not bind to a mapping, to the source's mapping
/// as it stands.
pub proof fn lemma_merge_source_structure_replaces(dst: Seq<(Seq<char>, Tree)>, src: Seq<(Seq<char>, Tree)>, k: Seq<char>, sm: Seq<(Seq<char>, Tree)>)
    requires
        keys_unique(src),
        get(src, k) == Some(Tree::Mapping(sm)),
        !(get(dst, k) matches Some(Tree::Mapping(_))),
    ensures
        get(merge_trees(dst, src), k) == Some(Tree::Mapping(sm)),
    decreases src.len(),
{
    let n = src.len() - 1;
    let init = src.drop_last();
    let acc = merge_trees(dst, init);
    let (k1, t1) = src.last();
    lemma_find(src, k);
    lemma_find(init, k);
    let j = find(src, k);
    if k1 == k {
        assert(j == n) by {
            if j < n {
                assert(src[j].0 == src[n].0);
            }
        }
        assert(get(init, k) is None) by {
            let f = find(init, k);
            if f >= 0 {
                assert(src[f].0 == src[n].0);
            }
        }
        lemma_merge_keeps_destination_only(dst, init, k);
        lemma_get_put(acc, k, Tree::Mapping(sm));
    } else {
        assert(j < n) by {
            if j == n {
                assert(src[j].0 == k);
            }
        }
        assert(find(init, k) == j) by {
            let f = find(init, k);
            if f == -1 {
                assert(init[j].0 != k);
            } else if f < j {
                assert(src[f].0 != k);
            } else if f > j {
                assert(init[j].0 != k);
            }
        }
        assert(keys_unique(init));
        lemma_merge_source_structure_replaces(dst, init, k, sm);
        match (t1, get(acc, k1)) {
            (Tree::Mapping(sm1), Some(Tree::Mapping(dm1))) => {
                lemma_get_put_other(acc, k1, Tree::Mapping(merge_trees(dm1, sm1)), k);
            },
            _ => {
                lemma_get_put_other(acc, k1, t1, k);
            },
        }
    }
}

/// Every segment of `segs` but the last names a mapping below `es`, and
/// the last names no entry of the innermost one.
pub open spec fn absent_below(es: Seq<(Seq<char>, Tree)>, segs: Seq<Seq<char>>) -> bool
    decreases segs.len(),
{
    if segs.len() == 0 {
        false
    } else if segs.len() == 1 {
        get(es, segs[0]) is None
    } else {
        match get(es, segs[0]) {
            Some(Tree::Mapping(c)) => absent_below(c, segs.drop_first()),
            _ => false,
        }
    }
}

/// Removing a path whose parent mappings exist and whose last key is absent
/// leaves the tree unchanged.
pub proof fn lemma_delete_absent(es: Seq<(Seq<char>, Tree)>, segs: Seq<Seq<char>>)
    requires
        absent_below(es, segs),
    ensures
        set_path(es, segs, None) == es,
    decreases segs.len(),
{
    lemma_find(es, segs[0]);
    if segs.len() > 1 {
        let i = find(es, segs[0]);
        let c = es[i].1->Mapping_0;
        lemma_delete_absent(c, segs.drop_first());
        assert(es.update(i, (segs[0], Tree::Mapping(c))) =~= es);
    }
}

/// The first index below `n` whose decimal text is `seg`; -1 if none.
pub open spec fn index_named(n: nat, seg: Seq<char>, i: nat) -> int
    decreases n - i,
{
    if i >= n {
        -1
    } else if decimal(i) == seg {
        i as int
    } else {
        index_named(n, seg, i + 1)
    }
}


/// The node that the path `segs` names below `t`: mapping keys select
/// entries, decimal indices select sequence elements.
pub open spec fn lookup(t: Tree, segs: Seq<Seq<char>>) -> Option<Tree>
    decreases segs.len(),
{
    if segs.len() == 0 {
        Some(t)
    } else {
        match t {
            Tree::Mapping(es) => match get(es, segs[0]) {
                Some(c) => lookup(c, segs.drop_first()),
                None => None,
            },
            Tree::Sequence(items) => {
                let i = index_named(items.len(), segs[0], 0);
                if 0 <= i < items.len() {
                    lookup(items[i], segs.drop_first())
                } else {
                    None
                }
            },
            _ => None,
        }
    }
}

/// After a text is written at `segs`, looking `segs` up gives that text.
pub proof fn lemma_lookup_written(es: Seq<(Seq<char>, Tree)>, segs: Seq<Seq<char>>, v: Seq<char>)
    requires
        segs.len() >= 1,
    ensures
        lookup(Tree::Mapping(set_path(es, segs, Some(v))), segs) == Some(Tree::Text(v)),
    decreases segs.len(),
{
    if segs.len() == 1 {
        lemma_get_put(es, segs[0], Tree::Text(v));
        assert(segs.drop_first().len() == 0);
        assert(lookup(Tree::Text(v), segs.drop_first()) == Some(Tree::Text(v)));
    } else {
        let child = match get(es, segs[0]) {
            Some(Tree::Mapping(c)) => c,
            _ => Seq::empty(),
        };
        let x = set_path(child, segs.drop_first(), Some(v));
        assert(set_path(es, segs, Some(v)) == put(es, segs[0], Tree::Mapping(x)));
        lemma_get_put(es, segs[0], Tree::Mapping(x));
        lemma_lookup_written(child, segs.drop_first(), v);
        assert(lookup(Tree::Mapping(x), segs.drop_first()) == Some(Tree::Text(v)));
    }
}

/// In raw mode a template is rendered once: the outcome is the first
/// rendering's text, or nothing when it is empty, or a first-pass failure.
pub proof fn lemma_raw_single_pass(t: Seq<char>, data: Seq<char>)
    ensures
        resolve(t, data, true, 0) == match render_outcome(t, data) {
            None => Err(TemplateFailure::FirstPass),
            Some(r) => if r.len() > 0 {
                Ok(Some(r))
            } else {
                Ok(None)
            },
        },
{
}

} // verus!
