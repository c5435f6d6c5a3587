use vstd::prelude::*;
use crate::flatten::{flatten, flatten_mapping, pairs_of};
use crate::template::{get_value, json_of, resolve, wrapped, TemplateFailure};
use crate::value::{Mapping, Tree};

verus! {

/// The candidates whose flag in `present` holds, in order.
pub open spec fn kept(candidates: Seq<Seq<char>>, present: Seq<bool>) -> Seq<Seq<char>>
    decreases candidates.len(),
{
    if candidates.len() == 0 || present.len() == 0 {
        Seq::empty()
    } else {
        let rest = kept(candidates.drop_last(), present.drop_last());
        if present.last() {
            rest.push(candidates.last())
        } else {
            rest
        }
    }
}

/// The configuration files that exist among the candidates, one per
/// directory from the outermost down to the working directory, in that order;
/// `present[i]` tells whether `candidates[i]` exists.
pub fn list_files(candidates: &Vec<String>, present: &Vec<bool>) -> (r: Vec<String>)
    requires
        candidates.len() == present.len(),
    ensures
        r@.map_values(|s: String| s@) == kept(candidates@.map_values(|s: String| s@), present@),
{
    let ghost cs = candidates@.map_values(|s: String| s@);
    let mut r: Vec<String> = Vec::new();
    let mut i: usize = 0;
    while i < candidates.len()
        invariant
            candidates.len() == present.len(),
            cs == candidates@.map_values(|s: String| s@),
            i <= candidates.len(),
            r@.map_values(|s: String| s@) == kept(cs.take(i as int), present@.take(i as int)),
        decreases candidates.len() - i,
    {
        proof {
            assert(cs.take(i + 1).drop_last() =~= cs.take(i as int));
            assert(present@.take(i + 1).drop_last() =~= present@.take(i as int));
        }
        if present[i] {
            r.push(candidates[i].clone());
        }
        assert(r@.map_values(|s: String| s@) =~= kept(cs.take(i + 1), present@.take(i + 1)));
        i = i + 1;
    }
    proof {
        assert(cs.take(i as int) =~= cs);
        assert(present@.take(i as int) =~= present@);
    }
    r
}

/// The resolved text of a listed path: nothing in raw mode, else the
/// resolution of the raw reference to it, empty when that is absent.
pub open spec fn listed(root: Tree, name: Seq<char>, raw: bool) -> Result<Seq<char>, TemplateFailure> {
    if raw {
        Ok(Seq::empty())
    } else {
        match resolve(wrapped(name), json_of(root), false, 0) {
            Ok(Some(s)) => Ok(s),
            Ok(None) => Ok(Seq::empty()),
            Err(e) => Err(e),
        }
    }
}

/// One row per leaf of `values`, in enumeration order: its dotted path, its
/// resolved text (empty in raw mode) and its raw text. The first path whose
/// resolution fails ends the listing with its failure.
pub fn list_values(values: &Mapping, raw: bool) -> (r: Result<Vec<(String, String, String)>, TemplateFailure>)
    ensures
        r matches Ok(rows) ==> {
            let all = flatten(Seq::empty(), Tree::Mapping(values@));
            &&& rows@.len() == all.len()
            &&& forall|i: int|
                0 <= i < all.len() ==> #[trigger] rows@[i].0@ == all[i].0 && rows@[i].2@ == all[i].1
                    && listed(Tree::Mapping(values@), all[i].0, raw) == Ok::<Seq<char>, TemplateFailure>(rows@[i].1@)
        },
        r matches Err(e) ==> exists|i: int|
            0 <= i < flatten(Seq::empty(), Tree::Mapping(values@)).len() && listed(
                Tree::Mapping(values@),
                #[trigger] flatten(Seq::empty(), Tree::Mapping(values@))[i].0,
                raw,
            ) == Err::<Seq<char>, TemplateFailure>(e) && forall|j: int|
                0 <= j < i ==> listed(
                    Tree::Mapping(values@),
                    #[trigger] flatten(Seq::empty(), Tree::Mapping(values@))[j].0,
                    raw,
                ) is Ok,
{
    let ghost root = Tree::Mapping(values@);
    let ghost all = flatten(Seq::empty(), root);
    let pairs = flatten_mapping(values);
    let mut rows: Vec<(String, String, String)> = Vec::new();
    let mut i: usize = 0;
    assert(pairs_of(pairs@).len() == pairs@.len());
    while i < pairs.len()
        invariant
            root == Tree::Mapping(values@),
            all == flatten(Seq::empty(), root),
            pairs_of(pairs@) == all,
            i <= pairs.len(),
            rows@.len() == i,
            forall|j: int|
                0 <= j < i ==> #[trigger] rows@[j].0@ == all[j].0 && rows@[j].2@ == all[j].1
                    && listed(root, all[j].0, raw) == Ok::<Seq<char>, TemplateFailure>(rows@[j].1@),
        decreases pairs.len() - i,
    {
        assert(pairs_of(pairs@)[i as int] == (pairs@[i as int].0@, pairs@[i as int].1@));
        let name = pairs[i].0.clone();
        let resolved = if raw {
            String::new()
        } else {
            match get_value(values, name.as_str(), false) {
                Ok(s) => s,
                Err(e) => {
                    assert(listed(root, all[i as int].0, raw) == Err::<Seq<char>, TemplateFailure>(e));
                    assert(flatten(Seq::empty(), Tree::Mapping(values@))[i as int].0 == all[i as int].0);
                    assert forall|j: int| 0 <= j < i implies listed(
                        Tree::Mapping(values@),
                        #[trigger] flatten(Seq::empty(), Tree::Mapping(values@))[j].0,
                        raw,
                    ) is Ok by {
                        assert(rows@[j].0@ == all[j].0);
                    }
                    return Err(e);
                },
            }
        };
        rows.push((name, resolved, pairs[i].1.clone()));
        i = i + 1;
    }
    Ok(rows)
}

/// What one invocation does.
#[derive(Debug, PartialEq, Eq)]
pub enum Command {
    /// List every resolved path.
    List,
    /// Resolve one dotted path or inline template.
    Read(String),
    /// Store `value` as text at the dotted path `name`.
    Write { name: String, value: String },
    /// Remove the dotted path.
    Delete(String),
}

/// The words of `w` joined with single spaces.
pub open spec fn join_spaces(w: Seq<Seq<char>>) -> Seq<char>
    decreases w.len(),
{
    if w.len() == 0 {
        Seq::empty()
    } else if w.len() == 1 {
        w[0]
    } else {
        join_spaces(w.drop_last()) + seq![' '] + w.last()
    }
}

/// The words of `words` joined with single spaces.
pub fn join_words(words: &Vec<String>) -> (r: String)
    ensures
        r@ == join_spaces(words@.map_values(|s: String| s@)),
{
    let ghost ws = words@.map_values(|s: String| s@);
    let mut r = String::new();
    let mut i: usize = 0;
    while i < words.len()
        invariant
            ws == words@.map_values(|s: String| s@),
            i <= words.len(),
            r@ == join_spaces(ws.take(i as int)),
        decreases words.len() - i,
    {
        proof {
            assert(ws.take(i + 1).drop_last() =~= ws.take(i as int));
        }
        let ghost before = r@;
        if i > 0 {
            r.append(" ");
        }
        r.append(words[i].as_str());
        proof {
            let t = ws.take(i + 1);
            assert(t.last() == words@[i as int]@);
            if i == 0 {
                assert(r@ =~= join_spaces(t));
            } else {
                reveal_strlit(" ");
                assert(" "@ =~= seq![' ']);
                assert(r@ =~= before + seq![' '] + words@[i as int]@);
            }
        }
        i = i + 1;
    }
    proof {
        assert(ws.take(i as int) =~= ws);
    }
    r
}

/// The command for the arguments: with value words, a write of their
/// space-joined text at `name` (a removal of `name` when `delete` holds);
/// with a non-empty name only, a read; else the listing.
pub fn choose_command(name: &str, values: &Option<Vec<String>>, delete: bool) -> (r: Command)
    ensures
        values is Some && delete ==> r is Delete && r->Delete_0@ == name@,
        values is Some && !delete ==> r is Write && r->Write_name@ == name@
            && r->Write_value@ == join_spaces(values->0@.map_values(|s: String| s@)),
        values is None && name@.len() > 0 ==> r is Read && r->Read_0@ == name@,
        values is None && name@.len() == 0 ==> r is List,
{
    match values {
        Some(ws) => {
            if delete {
                Command::Delete(String::from_str(name))
            } else {
                Command::Write { name: String::from_str(name), value: join_words(ws) }
            }
        },
        None => {
            if name.unicode_len() > 0 {
                Command::Read(String::from_str(name))
            } else {
                Command::List
            }
        },
    }
}

} // verus!
