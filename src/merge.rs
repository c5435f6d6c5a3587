use vstd::prelude::*;
use crate::value::{
    copy_mapping, copy_value, entries_of, entries_wf, get, keys_unique, lemma_entries_of, lemma_entries_wf_at, lemma_find, lemma_get_wf, lemma_put_wf, tree_wf, put, tree_of, Mapping, Tree,
    Value,
};

verus! {

/// The result of merging the entries of `src`, in order, into `dst`.
pub open spec fn merge_trees(dst: Seq<(Seq<char>, Tree)>, src: Seq<(Seq<char>, Tree)>) -> Seq<(Seq<char>, Tree)>
    decreases src,
{
    if src.len() == 0 {
        dst
    } else {
        let acc = merge_trees(dst, src.drop_last());
        let (k, t) = src.last();
        match (t, get(acc, k)) {
            (Tree::Mapping(sm), Some(Tree::Mapping(dm))) => put(acc, k, Tree::Mapping(merge_trees(dm, sm))),
            _ => put(acc, k, t),
        }
    }
}

/// The merge of each document in turn into an empty mapping.
pub open spec fn merge_docs(docs: Seq<Seq<(Seq<char>, Tree)>>) -> Seq<(Seq<char>, Tree)>
    decreases docs.len(),
{
    if docs.len() == 0 {
        Seq::empty()
    } else {
        merge_trees(merge_docs(docs.drop_last()), docs.last())
    }
}

/// Merging well-formed mappings gives a well-formed mapping.
pub proof fn lemma_merge_wf(dst: Seq<(Seq<char>, Tree)>, src: Seq<(Seq<char>, Tree)>)
    requires
        entries_wf(dst),
        entries_wf(src),
    ensures
        entries_wf(merge_trees(dst, src)),
    decreases src,
{
    if src.len() > 0 {
        let init = src.drop_last();
        assert(keys_unique(init)) by {
            assert forall|a: int, b: int| 0 <= a < b < init.len() implies init[a].0 != init[b].0 by {
                assert(init[a] == src[a] && init[b] == src[b]);
            }
        }
        lemma_merge_wf(dst, init);
        let acc = merge_trees(dst, init);
        let (k, t) = src.last();
        lemma_entries_wf_at(src, src.len() - 1);
        lemma_get_wf(acc, k);
        match (t, get(acc, k)) {
            (Tree::Mapping(sm), Some(Tree::Mapping(dm))) => {
                assert(decreases_to!(src => src.last()));
                lemma_merge_wf(dm, sm);
                lemma_put_wf(acc, k, Tree::Mapping(merge_trees(dm, sm)));
            },
            _ => {
                lemma_put_wf(acc, k, t);
            },
        }
    }
}

/// Merging well-formed documents gives a well-formed mapping.
pub proof fn lemma_merge_docs_wf(docs: Seq<Seq<(Seq<char>, Tree)>>)
    requires
        forall|i: int| 0 <= i < docs.len() ==> #[trigger] entries_wf(docs[i]),
    ensures
        entries_wf(merge_docs(docs)),
    decreases docs.len(),
{
    if docs.len() > 0 {
        let init = docs.drop_last();
        assert forall|i: int| 0 <= i < init.len() implies #[trigger] entries_wf(init[i]) by {
            assert(init[i] == docs[i]);
        }
        lemma_merge_docs_wf(init);
        assert(entries_wf(docs[docs.len() - 1]));
        lemma_merge_wf(merge_docs(init), docs.last());
    }
}

/// Deep-merges `source` into `destination`, the values of `source` winning.
pub fn merge_mappings(destination: &mut Mapping, source: &Mapping)
    ensures
        final(destination)@ == merge_trees(old(destination)@, source@),
        keys_unique(old(destination)@) ==> keys_unique(final(destination)@),
        entries_wf(old(destination)@) && entries_wf(source@) ==> entries_wf(final(destination)@),
    decreases source,
{
    proof {
        lemma_entries_of(source.entries@);
    }
    let mut i: usize = 0;
    while i < source.entries.len()
        invariant
            i <= source.entries.len(),
            entries_of(source.entries@).len() == source.entries@.len(),
            forall|j: int|
                0 <= j < source.entries@.len() ==> #[trigger] entries_of(source.entries@)[j]
                    == (source.entries@[j].0@, tree_of(source.entries@[j].1)),
            destination@ == merge_trees(old(destination)@, source@.take(i as int)),
            keys_unique(old(destination)@) ==> keys_unique(destination@),
        decreases source.entries.len() - i,
    {
        proof {
            assert(source@.take(i + 1).drop_last() =~= source@.take(i as int));
            assert(source@.take(i + 1).last() == source@[i as int]);
        }
        let key = &source.entries[i].0;
        let value = &source.entries[i].1;
        let ghost acc = destination@;
        let ghost t = tree_of(*value);
        proof {
            lemma_find(acc, key@);
            lemma_entries_of(destination.entries@);
        }
        let mut merged = false;
        if let Value::Mapping(sm) = value {
            match destination.position(key) {
                Some(j) => {
                    if let Value::Mapping(dm) = &destination.entries[j].1 {
                        assert(get(acc, key@) == Some(Tree::Mapping(dm@)));
                        assert(t == Tree::Mapping(sm@));
                        let mut inner = copy_mapping(dm);
                        assert(decreases_to!(*source => source.entries@[i as int].1));
                        assert(decreases_to!(source.entries@[i as int].1 => source.entries@[i as int].1->Mapping_0));
                        merge_mappings(&mut inner, sm);
                        destination.insert(key.clone(), Value::Mapping(inner));
                        merged = true;
                    } else {
                        assert(get(acc, key@) == Some(tree_of(destination.entries@[j as int].1)));
                        assert(!(tree_of(destination.entries@[j as int].1) is Mapping));
                    }
                },
                None => {
                    assert(get(acc, key@) is None);
                },
            }
        } else {
            assert(!(t is Mapping));
        }
        if !merged {
            let c = copy_value(value);
            destination.insert(key.clone(), c);
        }
        i = i + 1;
    }
    proof {
        assert(source@.take(i as int) =~= source@);
        if entries_wf(old(destination)@) && entries_wf(source@) {
            lemma_merge_wf(old(destination)@, source@);
        }
    }
}

/// Merges `docs` in order, from the outermost to the nearest, into one mapping.
pub fn merge_all(docs: &Vec<Mapping>) -> (r: Mapping)
    ensures
        r@ == merge_docs(docs@.map_values(|m: Mapping| m@)),
        keys_unique(r@),
        (forall|i: int| 0 <= i < docs@.len() ==> #[trigger] entries_wf(docs@[i]@)) ==> entries_wf(r@),
{
    let mut acc = Mapping::new();
    let mut i: usize = 0;
    while i < docs.len()
        invariant
            i <= docs.len(),
            acc@ == merge_docs(docs@.map_values(|m: Mapping| m@).take(i as int)),
            keys_unique(acc@),
        decreases docs.len() - i,
    {
        proof {
            let vs = docs@.map_values(|m: Mapping| m@);
            assert(vs.take(i + 1).drop_last() =~= vs.take(i as int));
        }
        merge_mappings(&mut acc, &docs[i]);
        i = i + 1;
    }
    proof {
        let vs = docs@.map_values(|m: Mapping| m@);
        assert(vs.take(i as int) =~= vs);
        if forall|j: int| 0 <= j < docs@.len() ==> #[trigger] entries_wf(docs@[j]@) {
            assert forall|j: int| 0 <= j < vs.len() implies #[trigger] entries_wf(vs[j]) by {
                assert(vs[j] == docs@[j]@);
            }
            lemma_merge_docs_wf(vs);
        }
    }
    acc
}

} // verus!
