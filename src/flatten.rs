use vstd::prelude::*;
use crate::value::{
    entries_of, lemma_entries_of, lemma_trees_of, tree_of, trees_of, Mapping, Tree, Value,
};

verus! {

/// The decimal digit of `d`.
pub open spec fn digit(d: nat) -> char {
    if d == 0 { '0' }
    else if d == 1 { '1' }
    else if d == 2 { '2' }
    else if d == 3 { '3' }
    else if d == 4 { '4' }
    else if d == 5 { '5' }
    else if d == 6 { '6' }
    else if d == 7 { '7' }
    else if d == 8 { '8' }
    else { '9' }
}

/// The decimal text of `n`, without leading zeros.
pub open spec fn decimal(n: nat) -> Seq<char>
    decreases n,
{
    if n < 10 {
        seq![digit(n)]
    } else {
        decimal(n / 10).push(digit(n % 10))
    }
}

/// The segments of `p` joined with dots.
pub open spec fn join(p: Seq<Seq<char>>) -> Seq<char>
    decreases p.len(),
{
    if p.len() == 0 {
        Seq::empty()
    } else if p.len() == 1 {
        p[0]
    } else {
        join(p.drop_last()) + seq!['.'] + p.last()
    }
}

/// The text of a leaf: booleans and numbers as written, strings verbatim,
/// anything else `null`.
pub open spec fn leaf_text(t: Tree) -> Seq<char> {
    match t {
        Tree::Bool(b) => if b { "true"@ } else { "false"@ },
        Tree::Number(n) => n,
        Tree::Text(s) => s,
        _ => "null"@,
    }
}

/// Every leaf under `t`, depth first, with its dotted path below `path`.
pub open spec fn flatten(path: Seq<Seq<char>>, t: Tree) -> Seq<(Seq<char>, Seq<char>)>
    decreases t,
{
    match t {
        Tree::Mapping(es) => flatten_entries(path, es),
        Tree::Sequence(items) => flatten_items(path, items),
        _ => seq![(join(path), leaf_text(t))],
    }
}

pub open spec fn flatten_entries(path: Seq<Seq<char>>, es: Seq<(Seq<char>, Tree)>) -> Seq<(Seq<char>, Seq<char>)>
    decreases es,
{
    if es.len() == 0 {
        Seq::empty()
    } else {
        flatten_entries(path, es.drop_last()) + flatten(path.push(es.last().0), es.last().1)
    }
}

pub open spec fn flatten_items(path: Seq<Seq<char>>, items: Seq<Tree>) -> Seq<(Seq<char>, Seq<char>)>
    decreases items,
{
    if items.len() == 0 {
        Seq::empty()
    } else {
        flatten_items(path, items.drop_last()) + flatten(
            path.push(decimal((items.len() - 1) as nat)),
            items.last(),
        )
    }
}

/// The model of a list of (path, text) pairs.
pub open spec fn pairs_of(s: Seq<(String, String)>) -> Seq<(Seq<char>, Seq<char>)> {
    s.map_values(|p: (String, String)| (p.0@, p.1@))
}

/// The model of a path.
pub open spec fn segments_of(s: Seq<String>) -> Seq<Seq<char>> {
    s.map_values(|x: String| x@)
}

/// The decimal text of `n`.
pub fn decimal_text(n: usize) -> (r: String)
    ensures
        r@ == decimal(n as nat),
    decreases n,
{
    if n < 10 {
        let s = if n == 0 { "0" } else if n == 1 { "1" } else if n == 2 { "2" } else if n == 3 {
            "3"
        } else if n == 4 { "4" } else if n == 5 { "5" } else if n == 6 { "6" } else if n == 7 {
            "7"
        } else if n == 8 { "8" } else { "9" };
        proof {
            reveal_strlit("0");
            reveal_strlit("1");
            reveal_strlit("2");
            reveal_strlit("3");
            reveal_strlit("4");
            reveal_strlit("5");
            reveal_strlit("6");
            reveal_strlit("7");
            reveal_strlit("8");
            reveal_strlit("9");
        }
        let r = String::from_str(s);
        assert(r@ =~= decimal(n as nat));
        r
    } else {
        let mut r = decimal_text(n / 10);
        let d = decimal_text(n % 10);
        r.append(d.as_str());
        assert(r@ =~= decimal(n as nat));
        r
    }
}

/// The segments of `p` joined with dots.
pub fn join_path(p: &Vec<String>) -> (r: String)
    ensures
        r@ == join(segments_of(p@)),
{
    let mut r = String::new();
    let mut i: usize = 0;
    proof {
        reveal_strlit(".");
    }
    while i < p.len()
        invariant
            i <= p.len(),
            r@ == join(segments_of(p@).take(i as int)),
        decreases p.len() - i,
    {
        proof {
            assert(segments_of(p@).take(i + 1).drop_last() =~= segments_of(p@).take(i as int));
        }
        let ghost before = r@;
        if i > 0 {
            r.append(".");
        }
        r.append(p[i].as_str());
        proof {
            let t = segments_of(p@).take(i + 1);
            assert(t.last() == p@[i as int]@);
            if i == 0 {
                assert(r@ =~= join(t));
            } else {
                reveal_strlit(".");
                assert("."@ =~= seq!['.']);
                assert(join(t) == join(t.drop_last()) + seq!['.'] + t.last());
                assert(r@ =~= before + seq!['.'] + p@[i as int]@);
            }
        }
        i = i + 1;
    }
    proof {
        assert(segments_of(p@).take(i as int) =~= segments_of(p@));
    }
    r
}

/// The text of a leaf value.
pub fn leaf_string(v: &Value) -> (r: String)
    ensures
        r@ == leaf_text(v@),
{
    match v {
        Value::Bool(b) => if *b {
            String::from_str("true")
        } else {
            String::from_str("false")
        },
        Value::Number(n) => n.clone(),
        Value::Text(s) => s.clone(),
        _ => String::from_str("null"),
    }
}

/// Appends to `values` each leaf under `current` with its dotted path below `old_path`.
pub fn enumerate_values(values: &mut Vec<(String, String)>, old_path: Vec<String>, current: &Value)
    ensures
        pairs_of(final(values)@) == pairs_of(old(values)@) + flatten(segments_of(old_path@), current@),
    decreases current,
{
    match current {
        Value::Mapping(m) => {
            assert(decreases_to!(*current => current->Mapping_0));
            enumerate_entries(values, &old_path, m);
        },
        Value::Sequence(items) => {
            assert(decreases_to!(*current => current->Sequence_0));
            enumerate_items(values, &old_path, items);
        },
        _ => {
            let text = leaf_string(current);
            let p = join_path(&old_path);
            values.push((p, text));
            assert(pairs_of(values@) =~= pairs_of(old(values)@) + flatten(segments_of(old_path@), current@));
        },
    }
}

/// The path `path` extended by `seg`.
fn extend_path(path: &Vec<String>, seg: String) -> (r: Vec<String>)
    ensures
        segments_of(r@) == segments_of(path@).push(seg@),
{
    let mut r = path.clone();
    r.push(seg);
    assert(segments_of(r@) =~= segments_of(path@).push(seg@));
    r
}

fn enumerate_entries(values: &mut Vec<(String, String)>, path: &Vec<String>, m: &Mapping)
    ensures
        pairs_of(final(values)@) == pairs_of(old(values)@) + flatten_entries(segments_of(path@), m@),
    decreases m,
{
    proof {
        lemma_entries_of(m.entries@);
    }
    let mut i: usize = 0;
    while i < m.entries.len()
        invariant
            i <= m.entries.len(),
            entries_of(m.entries@).len() == m.entries@.len(),
            forall|j: int|
                0 <= j < m.entries@.len() ==> #[trigger] entries_of(m.entries@)[j]
                    == (m.entries@[j].0@, tree_of(m.entries@[j].1)),
            pairs_of(values@) == pairs_of(old(values)@) + flatten_entries(segments_of(path@), m@.take(i as int)),
        decreases m.entries.len() - i,
    {
        proof {
            assert(m@.take(i + 1).drop_last() =~= m@.take(i as int));
        }
        let child = extend_path(path, m.entries[i].0.clone());
        assert(decreases_to!(*m => m.entries@[i as int].1));
        enumerate_values(values, child, &m.entries[i].1);
        assert(pairs_of(values@) =~= pairs_of(old(values)@) + flatten_entries(segments_of(path@), m@.take(i + 1)));
        i = i + 1;
    }
    proof {
        assert(m@.take(i as int) =~= m@);
    }
}

fn enumerate_items(values: &mut Vec<(String, String)>, path: &Vec<String>, items: &Vec<Value>)
    ensures
        pairs_of(final(values)@) == pairs_of(old(values)@) + flatten_items(segments_of(path@), trees_of(items@)),
    decreases items,
{
    proof {
        lemma_trees_of(items@);
    }
    let mut i: usize = 0;
    while i < items.len()
        invariant
            i <= items.len(),
            trees_of(items@).len() == items@.len(),
            forall|j: int| 0 <= j < items@.len() ==> #[trigger] trees_of(items@)[j] == tree_of(items@[j]),
            pairs_of(values@) == pairs_of(old(values)@) + flatten_items(segments_of(path@), trees_of(items@).take(i as int)),
        decreases items.len() - i,
    {
        proof {
            assert(trees_of(items@).take(i + 1).drop_last() =~= trees_of(items@).take(i as int));
        }
        let child = extend_path(path, decimal_text(i));
        assert(decreases_to!(*items => items@[i as int]));
        enumerate_values(values, child, &items[i]);
        assert(pairs_of(values@) =~= pairs_of(old(values)@) + flatten_items(segments_of(path@), trees_of(items@).take(i + 1)));
        i = i + 1;
    }
    proof {
        assert(trees_of(items@).take(i as int) =~= trees_of(items@));
    }
}

/// Every leaf of `tree`, depth first, as (dotted path, text) pairs.
pub fn flatten_mapping(tree: &Mapping) -> (r: Vec<(String, String)>)
    ensures
        pairs_of(r@) == flatten(Seq::empty(), Tree::Mapping(tree@)),
{
    let mut r: Vec<(String, String)> = Vec::new();
    let root: Vec<String> = Vec::new();
    assert(segments_of(root@) =~= Seq::<Seq<char>>::empty());
    assert(pairs_of(r@) =~= Seq::empty());
    enumerate_entries(&mut r, &root, tree);
    assert(pairs_of(r@) =~= flatten(Seq::empty(), Tree::Mapping(tree@)));
    r
}

} // verus!
