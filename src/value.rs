use vstd::prelude::*;

verus! {

/// The mathematical model of a value tree.
pub enum Tree {
    Null,
    Bool(bool),
    Number(Seq<char>),
    Text(Seq<char>),
    Sequence(Seq<Tree>),
    Mapping(Seq<(Seq<char>, Tree)>),
}

/// A structured value: a scalar, an ordered sequence, or an ordered mapping
/// from string keys to values.
pub enum Value {
    Null,
    Bool(bool),
    /// A number, held as its canonical decimal text.
    Number(String),
    Text(String),
    Sequence(Vec<Value>),
    Mapping(Mapping),
}

/// An ordered association of string keys to values; insertion order is kept.
pub struct Mapping {
    pub entries: Vec<(String, Value)>,
}

pub open spec fn tree_of(v: Value) -> Tree
    decreases v,
{
    match v {
        Value::Null => Tree::Null,
        Value::Bool(b) => Tree::Bool(b),
        Value::Number(n) => Tree::Number(n@),
        Value::Text(s) => Tree::Text(s@),
        Value::Sequence(items) => Tree::Sequence(trees_of(items@)),
        Value::Mapping(m) => Tree::Mapping(entries_of(m.entries@)),
    }
}

pub open spec fn trees_of(s: Seq<Value>) -> Seq<Tree>
    decreases s,
{
    if s.len() == 0 {
        Seq::empty()
    } else {
        trees_of(s.drop_last()).push(tree_of(s.last()))
    }
}

pub open spec fn entries_of(s: Seq<(String, Value)>) -> Seq<(Seq<char>, Tree)>
    decreases s,
{
    if s.len() == 0 {
        Seq::empty()
    } else {
        entries_of(s.drop_last()).push((s.last().0@, tree_of(s.last().1)))
    }
}

impl View for Value {
    type V = Tree;

    open spec fn view(&self) -> Tree {
        tree_of(*self)
    }
}

impl View for Mapping {
    type V = Seq<(Seq<char>, Tree)>;

    open spec fn view(&self) -> Seq<(Seq<char>, Tree)> {
        entries_of(self.entries@)
    }
}

pub proof fn lemma_trees_of(s: Seq<Value>)
    ensures
        trees_of(s).len() == s.len(),
        forall|i: int| 0 <= i < s.len() ==> #[trigger] trees_of(s)[i] == tree_of(s[i]),
    decreases s.len(),
{
    if s.len() > 0 {
        lemma_trees_of(s.drop_last());
    }
}

pub proof fn lemma_entries_of(s: Seq<(String, Value)>)
    ensures
        entries_of(s).len() == s.len(),
        forall|i: int|
            0 <= i < s.len() ==> #[trigger] entries_of(s)[i] == (s[i].0@, tree_of(s[i].1)),
    decreases s.len(),
{
    if s.len() > 0 {
        lemma_entries_of(s.drop_last());
    }
}

/// Index of the first entry whose key is `k`, at or after `i`; -1 if none.
pub open spec fn find_from(es: Seq<(Seq<char>, Tree)>, k: Seq<char>, i: int) -> int
    decreases es.len() - i,
{
    if i < 0 || i >= es.len() {
        -1
    } else if es[i].0 == k {
        i
    } else {
        find_from(es, k, i + 1)
    }
}

/// Index of the entry whose key is `k`; -1 if none.
pub open spec fn find(es: Seq<(Seq<char>, Tree)>, k: Seq<char>) -> int {
    find_from(es, k, 0)
}

/// The value bound to `k`, if any.
pub open spec fn get(es: Seq<(Seq<char>, Tree)>, k: Seq<char>) -> Option<Tree> {
    let i = find(es, k);
    if i >= 0 {
        Some(es[i].1)
    } else {
        None
    }
}

/// Binds `k` to `t`: an existing entry keeps its place, a new one goes last.
pub open spec fn put(es: Seq<(Seq<char>, Tree)>, k: Seq<char>, t: Tree) -> Seq<(Seq<char>, Tree)> {
    let i = find(es, k);
    if i >= 0 {
        es.update(i, (k, t))
    } else {
        es.push((k, t))
    }
}

/// Removes the entry of `k`, if any, keeping the order of the others.
pub open spec fn del(es: Seq<(Seq<char>, Tree)>, k: Seq<char>) -> Seq<(Seq<char>, Tree)> {
    let i = find(es, k);
    if i >= 0 {
        es.remove(i)
    } else {
        es
    }
}

pub proof fn lemma_find_from(es: Seq<(Seq<char>, Tree)>, k: Seq<char>, i: int)
    requires
        0 <= i,
    ensures
        -1 <= find_from(es, k, i) < es.len(),
        find_from(es, k, i) >= 0 ==> find_from(es, k, i) >= i && es[find_from(es, k, i)].0 == k,
        find_from(es, k, i) == -1 ==> forall|j: int| i <= j < es.len() ==> es[j].0 != k,
        find_from(es, k, i) >= 0 ==> forall|j: int| i <= j < find_from(es, k, i) ==> es[j].0 != k,
    decreases es.len() - i,
{
    if i < es.len() && es[i].0 != k {
        lemma_find_from(es, k, i + 1);
    }
}

pub proof fn lemma_find(es: Seq<(Seq<char>, Tree)>, k: Seq<char>)
    ensures
        -1 <= find(es, k) < es.len(),
        find(es, k) >= 0 ==> es[find(es, k)].0 == k,
        find(es, k) >= 0 ==> forall|j: int| 0 <= j < find(es, k) ==> es[j].0 != k,
        find(es, k) == -1 ==> forall|j: int| 0 <= j < es.len() ==> es[j].0 != k,
{
    lemma_find_from(es, k, 0);
}

/// The invariant of a mapping: no key occurs twice.
pub open spec fn keys_unique(es: Seq<(Seq<char>, Tree)>) -> bool {
    forall|i: int, j: int| 0 <= i < j < es.len() ==> es[i].0 != es[j].0
}

/// The invariant of a tree: no mapping in it binds a key twice.
pub open spec fn tree_wf(t: Tree) -> bool
    decreases t,
{
    match t {
        Tree::Mapping(es) => keys_unique(es) && values_wf(es),
        Tree::Sequence(items) => items_wf(items),
        _ => true,
    }
}

/// Each value of `es` is well formed.
pub open spec fn values_wf(es: Seq<(Seq<char>, Tree)>) -> bool
    decreases es,
{
    es.len() == 0 || (values_wf(es.drop_last()) && tree_wf(es.last().1))
}

/// Each element of `items` is well formed.
pub open spec fn items_wf(items: Seq<Tree>) -> bool
    decreases items,
{
    items.len() == 0 || (items_wf(items.drop_last()) && tree_wf(items.last()))
}

/// The invariant of a mapping's entries: unique keys, well-formed values.
pub open spec fn entries_wf(es: Seq<(Seq<char>, Tree)>) -> bool {
    keys_unique(es) && values_wf(es)
}

pub proof fn lemma_values_wf(es: Seq<(Seq<char>, Tree)>)
    ensures
        values_wf(es) <==> forall|i: int| 0 <= i < es.len() ==> #[trigger] tree_wf(es[i].1),
    decreases es.len(),
{
    if es.len() > 0 {
        lemma_values_wf(es.drop_last());
        if forall|i: int| 0 <= i < es.len() ==> #[trigger] tree_wf(es[i].1) {
            assert forall|i: int| 0 <= i < es.drop_last().len() implies #[trigger] tree_wf(es.drop_last()[i].1) by {
                assert(es.drop_last()[i] == es[i]);
            }
            assert(tree_wf(es[es.len() - 1].1));
        }
        if values_wf(es) {
            assert forall|i: int| 0 <= i < es.len() implies #[trigger] tree_wf(es[i].1) by {
                if i < es.len() - 1 {
                    assert(es.drop_last()[i] == es[i]);
                }
            }
        }
    }
}

pub proof fn lemma_entries_wf_at(es: Seq<(Seq<char>, Tree)>, i: int)
    requires
        entries_wf(es),
        0 <= i < es.len(),
    ensures
        tree_wf(es[i].1),
{
    lemma_values_wf(es);
}

pub proof fn lemma_get_wf(es: Seq<(Seq<char>, Tree)>, k: Seq<char>)
    requires
        entries_wf(es),
    ensures
        get(es, k) matches Some(t) ==> tree_wf(t),
{
    lemma_find(es, k);
    if find(es, k) >= 0 {
        lemma_entries_wf_at(es, find(es, k));
    }
}

pub proof fn lemma_put_wf(es: Seq<(Seq<char>, Tree)>, k: Seq<char>, t: Tree)
    requires
        entries_wf(es),
        tree_wf(t),
    ensures
        entries_wf(put(es, k, t)),
{
    lemma_find(es, k);
    lemma_put_unique(es, k, t);
    let p = put(es, k, t);
    assert forall|i: int| 0 <= i < p.len() implies #[trigger] tree_wf(p[i].1) by {
        if i < es.len() && i != find(es, k) {
            assert(p[i] == es[i]);
            lemma_entries_wf_at(es, i);
        }
    }
    lemma_values_wf(p);
}

pub proof fn lemma_del_wf(es: Seq<(Seq<char>, Tree)>, k: Seq<char>)
    requires
        entries_wf(es),
    ensures
        entries_wf(del(es, k)),
{
    lemma_find(es, k);
    lemma_del_unique(es, k);
    let d = del(es, k);
    let i = find(es, k);
    assert forall|j: int| 0 <= j < d.len() implies #[trigger] tree_wf(d[j].1) by {
        if i < 0 || j < i {
            assert(d[j] == es[j]);
            lemma_entries_wf_at(es, j);
        } else {
            assert(d[j] == es[j + 1]);
            lemma_entries_wf_at(es, j + 1);
        }
    }
    lemma_values_wf(d);
}

pub proof fn lemma_put_unique(es: Seq<(Seq<char>, Tree)>, k: Seq<char>, t: Tree)
    requires
        keys_unique(es),
    ensures
        keys_unique(put(es, k, t)),
{
    lemma_find(es, k);
    let p = put(es, k, t);
    assert forall|a: int, b: int| 0 <= a < b < p.len() implies p[a].0 != p[b].0 by {
        if find(es, k) < 0 && b == es.len() {
            assert(es[a].0 != k);
        }
    }
}

pub proof fn lemma_del_unique(es: Seq<(Seq<char>, Tree)>, k: Seq<char>)
    requires
        keys_unique(es),
    ensures
        keys_unique(del(es, k)),
{
    lemma_find(es, k);
    let i = find(es, k);
    let d = del(es, k);
    assert forall|a: int, b: int| 0 <= a < b < d.len() implies d[a].0 != d[b].0 by {
        let a1 = if i < 0 || a < i { a } else { a + 1 };
        let b1 = if i < 0 || b < i { b } else { b + 1 };
        assert(d[a] == es[a1]);
        assert(d[b] == es[b1]);
    }
}

/// A copy of `v` with the same model.
pub fn copy_value(v: &Value) -> (r: Value)
    ensures
        r@ == v@,
    decreases v,
{
    match v {
        Value::Null => Value::Null,
        Value::Bool(b) => Value::Bool(*b),
        Value::Number(n) => Value::Number(n.clone()),
        Value::Text(s) => Value::Text(s.clone()),
        Value::Sequence(items) => {
            assert(decreases_to!(*v => v->Sequence_0));
            Value::Sequence(copy_items(items))
        },
        Value::Mapping(m) => {
            assert(decreases_to!(*v => v->Mapping_0));
            Value::Mapping(copy_mapping(m))
        },
    }
}

/// A copy of `items`, element by element.
pub fn copy_items(items: &Vec<Value>) -> (r: Vec<Value>)
    ensures
        trees_of(r@) == trees_of(items@),
    decreases items,
{
    let mut out: Vec<Value> = Vec::new();
    let mut i: usize = 0;
    while i < items.len()
        invariant
            i <= items.len(),
            out@.len() == i,
            forall|j: int| 0 <= j < i ==> #[trigger] tree_of(out@[j]) == tree_of(items@[j]),
        decreases items.len() - i,
    {
        assert(decreases_to!(*items => items@[i as int]));
        let c = copy_value(&items[i]);
        out.push(c);
        i = i + 1;
    }
    proof {
        lemma_trees_of(out@);
        lemma_trees_of(items@);
        assert(trees_of(out@) =~= trees_of(items@));
    }
    out
}

/// A copy of `m` with the same model.
pub fn copy_mapping(m: &Mapping) -> (r: Mapping)
    ensures
        r@ == m@,
    decreases m,
{
    let mut out: Vec<(String, Value)> = Vec::new();
    let mut i: usize = 0;
    while i < m.entries.len()
        invariant
            i <= m.entries.len(),
            out@.len() == i,
            forall|j: int|
                0 <= j < i ==> #[trigger] out@[j].0@ == m.entries@[j].0@ && tree_of(out@[j].1)
                    == tree_of(m.entries@[j].1),
        decreases m.entries.len() - i,
    {
        assert(decreases_to!(*m => m.entries@[i as int].1));
        let c = copy_value(&m.entries[i].1);
        out.push((m.entries[i].0.clone(), c));
        i = i + 1;
    }
    proof {
        lemma_entries_of(out@);
        lemma_entries_of(m.entries@);
        assert(entries_of(out@) =~= entries_of(m.entries@));
    }
    Mapping { entries: out }
}

impl Mapping {
    /// An empty mapping.
    pub fn new() -> (r: Mapping)
        ensures
            r@ == Seq::<(Seq<char>, Tree)>::empty(),
            entries_wf(r@),
    {
        Mapping { entries: Vec::new() }
    }

    /// The index of the entry with key `k`, if any.
    pub fn position(&self, k: &String) -> (r: Option<usize>)
        ensures
            r matches Some(i) ==> find(self@, k@) == i as int,
            r is None ==> find(self@, k@) == -1,
    {
        proof {
            lemma_entries_of(self.entries@);
        }
        let mut i: usize = 0;
        while i < self.entries.len()
            invariant
                i <= self.entries.len(),
                entries_of(self.entries@).len() == self.entries@.len(),
                forall|j: int|
                    0 <= j < self.entries@.len() ==> #[trigger] entries_of(self.entries@)[j]
                        == (self.entries@[j].0@, tree_of(self.entries@[j].1)),
                find(self@, k@) == find_from(self@, k@, i as int),
            decreases self.entries.len() - i,
        {
            if self.entries[i].0 == *k {
                return Some(i);
            }
            i = i + 1;
        }
        None
    }

    /// Binds `k` to `v`; an existing entry keeps its place, a new one goes last.
    pub fn insert(&mut self, k: String, v: Value)
        ensures
            final(self)@ == put(old(self)@, k@, v@),
            keys_unique(old(self)@) ==> keys_unique(final(self)@),
            entries_wf(old(self)@) && tree_wf(v@) ==> entries_wf(final(self)@),
    {
        proof {
            if keys_unique(self@) {
                lemma_put_unique(self@, k@, v@);
            }
            if entries_wf(self@) && tree_wf(v@) {
                lemma_put_wf(self@, k@, v@);
            }
        }
        proof {
            lemma_entries_of(self.entries@);
            lemma_find(self@, k@);
        }
        match self.position(&k) {
            Some(i) => {
                self.entries.set(i, (k, v));
            },
            None => {
                self.entries.push((k, v));
            },
        }
        proof {
            lemma_entries_of(self.entries@);
            assert(self@ =~= put(old(self)@, k@, v@));
        }
    }

    /// Removes the entry of `k`, if any, keeping the order of the others.
    pub fn remove(&mut self, k: &String)
        ensures
            final(self)@ == del(old(self)@, k@),
            keys_unique(old(self)@) ==> keys_unique(final(self)@),
            entries_wf(old(self)@) ==> entries_wf(final(self)@),
    {
        proof {
            if keys_unique(self@) {
                lemma_del_unique(self@, k@);
            }
            if entries_wf(self@) {
                lemma_del_wf(self@, k@);
            }
        }
        proof {
            lemma_entries_of(self.entries@);
            lemma_find(self@, k@);
        }
        match self.position(k) {
            Some(i) => {
                self.entries.remove(i);
            },
            None => {},
        }
        proof {
            lemma_entries_of(self.entries@);
            assert(self@ =~= del(old(self)@, k@));
        }
    }
}

} // verus!
