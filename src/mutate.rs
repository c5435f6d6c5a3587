use vstd::prelude::*;
use crate::flatten::segments_of;
use crate::value::{
    copy_mapping, del, entries_wf, get, keys_unique, lemma_del_wf, lemma_entries_of, lemma_find, lemma_get_wf, lemma_put_wf, lemma_values_wf, put, Mapping, Tree, Value,
};

verus! {

/// The pieces of `s` between dots; one piece when `s` holds no dot.
pub open spec fn split_dots(s: Seq<char>) -> Seq<Seq<char>>
    decreases s.len(),
{
    if s.len() == 0 {
        seq![Seq::empty()]
    } else {
        let rest = split_dots(s.drop_last());
        if s.last() == '.' {
            rest.push(Seq::empty())
        } else {
            rest.update(rest.len() - 1, rest.last().push(s.last()))
        }
    }
}

pub proof fn lemma_split_dots_len(s: Seq<char>)
    ensures
        split_dots(s).len() >= 1,
    decreases s.len(),
{
    if s.len() > 0 {
        lemma_split_dots_len(s.drop_last());
    }
}

/// `es` with the path `segs` written: each segment but the last names a
/// mapping, created (replacing whatever was bound there) when absent; the last
/// is bound to the text `leaf`, or removed when `leaf` is `None`.
pub open spec fn set_path(es: Seq<(Seq<char>, Tree)>, segs: Seq<Seq<char>>, leaf: Option<Seq<char>>) -> Seq<(Seq<char>, Tree)>
    decreases segs.len(),
{
    if segs.len() == 0 {
        es
    } else if segs.len() == 1 {
        match leaf {
            Some(v) => put(es, segs[0], Tree::Text(v)),
            None => del(es, segs[0]),
        }
    } else {
        let child = match get(es, segs[0]) {
            Some(Tree::Mapping(c)) => c,
            _ => Seq::empty(),
        };
        put(es, segs[0], Tree::Mapping(set_path(child, segs.drop_first(), leaf)))
    }
}

/// Writing a path into a well-formed mapping gives a well-formed mapping.
pub proof fn lemma_set_path_wf(es: Seq<(Seq<char>, Tree)>, segs: Seq<Seq<char>>, leaf: Option<Seq<char>>)
    requires
        entries_wf(es),
    ensures
        entries_wf(set_path(es, segs, leaf)),
    decreases segs.len(),
{
    if segs.len() == 1 {
        match leaf {
            Some(v) => lemma_put_wf(es, segs[0], Tree::Text(v)),
            None => lemma_del_wf(es, segs[0]),
        }
    } else if segs.len() > 1 {
        lemma_get_wf(es, segs[0]);
        let child = match get(es, segs[0]) {
            Some(Tree::Mapping(c)) => c,
            _ => Seq::empty(),
        };
        lemma_values_wf(child);
        lemma_set_path_wf(child, segs.drop_first(), leaf);
        lemma_put_wf(es, segs[0], Tree::Mapping(set_path(child, segs.drop_first(), leaf)));
    }
}

/// The pieces of `name` between dots.
pub fn split_name(name: &str) -> (r: Vec<String>)
    ensures
        segments_of(r@) == split_dots(name@),
{
    let n = name.unicode_len();
    let mut segs: Vec<String> = Vec::new();
    let mut cur = String::new();
    let mut i: usize = 0;
    proof {
        assert(name@.take(0) =~= Seq::<char>::empty());
        assert(segments_of(segs@).push(cur@) =~= split_dots(name@.take(0)));
    }
    while i < n
        invariant
            n == name@.len(),
            i <= n,
            segments_of(segs@).push(cur@) == split_dots(name@.take(i as int)),
        decreases n - i,
    {
        proof {
            assert(name@.take(i + 1).drop_last() =~= name@.take(i as int));
            lemma_split_dots_len(name@.take(i as int));
        }
        let c = name.get_char(i);
        if c == '.' {
            segs.push(cur);
            cur = String::new();
            assert(segments_of(segs@).push(cur@) =~= split_dots(name@.take(i + 1)));
        } else {
            let piece = name.substring_char(i, i + 1);
            assert(piece@ =~= seq![c]);
            let ghost before = cur@;
            cur.append(piece);
            proof {
                let t = name@.take(i + 1);
                assert(t.last() == c);
                let rest = split_dots(t.drop_last());
                assert(rest == segments_of(segs@).push(before));
                assert(cur@ =~= before.push(c));
                assert(split_dots(t) == rest.update(rest.len() - 1, rest.last().push(c)));
                assert(segments_of(segs@).push(cur@) =~= split_dots(t));
            }
        }
        i = i + 1;
    }
    segs.push(cur);
    proof {
        assert(name@.take(n as int) =~= name@);
        assert(segments_of(segs@) =~= split_dots(name@));
    }
    segs
}

fn apply_segments(m: &mut Mapping, segs: &Vec<String>, i: usize, leaf: &Option<String>)
    requires
        i < segs.len(),
    ensures
        final(m)@ == set_path(
            old(m)@,
            segments_of(segs@).skip(i as int),
            match leaf {
                Some(v) => Some(v@),
                None => None,
            },
        ),
        keys_unique(old(m)@) ==> keys_unique(final(m)@),
    decreases segs.len() - i,
{
    let ghost rest = segments_of(segs@).skip(i as int);
    assert(rest[0] == segs@[i as int]@);
    if i + 1 == segs.len() {
        match leaf {
            Some(v) => m.insert(segs[i].clone(), Value::Text(v.clone())),
            None => m.remove(&segs[i]),
        }
    } else {
        proof {
            lemma_find(m@, segs@[i as int]@);
            lemma_entries_of(m.entries@);
        }
        let mut child = match m.position(&segs[i]) {
            Some(j) => match &m.entries[j].1 {
                Value::Mapping(c) => copy_mapping(c),
                _ => Mapping::new(),
            },
            None => Mapping::new(),
        };
        let ghost c0 = match get(old(m)@, rest[0]) {
            Some(Tree::Mapping(c)) => c,
            _ => Seq::empty(),
        };
        assert(child@ == c0);
        apply_segments(&mut child, segs, i + 1, leaf);
        assert(rest.drop_first() =~= segments_of(segs@).skip(i + 1));
        m.insert(segs[i].clone(), Value::Mapping(child));
    }
}

/// Writes `value` as text at the dotted path `name` of `contents`, or removes
/// that path when `delete` holds.
pub fn write_value(contents: &mut Mapping, name: &str, value: &str, delete: bool)
    ensures
        final(contents)@ == set_path(
            old(contents)@,
            split_dots(name@),
            if delete { None } else { Some(value@) },
        ),
        keys_unique(old(contents)@) ==> keys_unique(final(contents)@),
        entries_wf(old(contents)@) ==> entries_wf(final(contents)@),
{
    let segs = split_name(name);
    proof {
        lemma_split_dots_len(name@);
        assert(segments_of(segs@).skip(0) =~= split_dots(name@));
    }
    let leaf = if delete { None } else { Some(String::from_str(value)) };
    apply_segments(contents, &segs, 0, &leaf);
    proof {
        if entries_wf(old(contents)@) {
            lemma_set_path_wf(
                old(contents)@,
                split_dots(name@),
                if delete { None } else { Some(value@) },
            );
        }
    }
}

} // verus!
