use vstd::prelude::*;
use crate::value::{entries_of, lemma_entries_of, lemma_trees_of, tree_of, trees_of, Mapping, Tree, Value};

verus! {

/// Why a template could not be rendered: malformed reference syntax in the
/// first pass, or in the second pass over the first pass's output.
#[derive(Debug, Clone, Copy, PartialEq, Eq)]
pub enum TemplateFailure {
    FirstPass,
    SecondPass,
}

/// `k` copies of `c`.
pub open spec fn run(c: char, k: nat) -> Seq<char> {
    Seq::new(k, |_i: int| c)
}

/// Whether `pat` occurs in `t` at `p`.
pub open spec fn at(t: Seq<char>, p: int, pat: Seq<char>) -> bool {
    0 <= p && p + pat.len() <= t.len() && t.subrange(p, p + pat.len()) == pat
}

/// The first position at or after `p` where `pat` occurs in `t`; -1 if none.
pub open spec fn find_pat(t: Seq<char>, pat: Seq<char>, p: int) -> int
    decreases t.len() + 1 - p,
{
    if p < 0 || p + pat.len() > t.len() {
        -1
    } else if at(t, p, pat) {
        p
    } else {
        find_pat(t, pat, p + 1)
    }
}

/// Whether `t` holds an opening double brace.
pub open spec fn has_open(t: Seq<char>) -> bool {
    find_pat(t, run('{', 2), 0) >= 0
}

/// Whether `c` may stand between `{{` and the `>` of a partial call:
/// a blank, a whitespace-control `~`, or the `#` of a partial block.
pub open spec fn partial_filler(c: char) -> bool {
    c == ' ' || c == '\t' || c == '\n' || c == '\r' || c == '~' || c == '#'
}

/// The first position at or after `i` whose character is no filler;
/// `t.len()` if none.
pub open spec fn skip_filler(t: Seq<char>, i: int) -> int
    decreases t.len() - i,
{
    if i < 0 || i >= t.len() {
        t.len() as int
    } else if partial_filler(t[i]) {
        skip_filler(t, i + 1)
    } else {
        i
    }
}

/// Whether a partial call opens at `p`: `{{`, fillers, then `>`.
pub open spec fn partial_at(t: Seq<char>, p: int) -> bool {
    at(t, p, run('{', 2)) && skip_filler(t, p + 2) < t.len() && t[skip_filler(t, p + 2)] == '>'
}

/// Whether `t` holds a partial call. Such templates are not rendered: a
/// partial may include itself without end.
pub open spec fn has_partial(t: Seq<char>) -> bool {
    exists|p: int| 0 <= p < t.len() && #[trigger] partial_at(t, p)
}

/// `name` as a raw reference: `{{{name}}}`.
pub open spec fn wrapped(name: Seq<char>) -> Seq<char> {
    run('{', 3) + name + run('}', 3)
}

/// The template that a read of `name` resolves: `name` itself when it holds
/// `{{`, else the raw reference to it.
pub open spec fn read_template(name: Seq<char>) -> Seq<char> {
    if has_open(name) { name } else { wrapped(name) }
}

/// Whether `k` copies of `c` stand in `t` at `p`.
fn run_at(t: &str, n: usize, p: usize, c: char, k: usize) -> (r: bool)
    requires
        n == t@.len(),
    ensures
        r == at(t@, p as int, run(c, k as nat)),
{
    if p > n || k > n - p {
        return false;
    }
    let mut i: usize = 0;
    while i < k
        invariant
            p + k <= n,
            n == t@.len(),
            i <= k,
            forall|j: int| 0 <= j < i ==> #[trigger] t@.subrange(p as int, p + k)[j] == c,
        decreases k - i,
    {
        if t.get_char(p + i) != c {
            assert(t@.subrange(p as int, p + k)[i as int] != run(c, k as nat)[i as int]);
            return false;
        }
        i = i + 1;
    }
    assert(t@.subrange(p as int, p + k) =~= run(c, k as nat));
    true
}

/// The first position at or after `p` where `k` copies of `c` stand in `t`.
fn find_run(t: &str, n: usize, p: usize, c: char, k: usize) -> (r: Option<usize>)
    requires
        n == t@.len(),
    ensures
        r matches Some(q) ==> find_pat(t@, run(c, k as nat), p as int) == q as int,
        r is None ==> find_pat(t@, run(c, k as nat), p as int) == -1,
{
    let mut q: usize = p;
    loop
        invariant
            n == t@.len(),
            p <= q,
            find_pat(t@, run(c, k as nat), p as int) == find_pat(t@, run(c, k as nat), q as int),
        decreases n + 1 - q,
    {
        if q > n || k > n - q {
            return None;
        }
        if run_at(t, n, q, c, k) {
            return Some(q);
        }
        if q == n {
            proof {
                assert(t@.subrange(q as int, q + k) =~= run(c, k as nat));
            }
            return None;
        }
        q = q + 1;
    }
}

/// Whether `t` holds an opening double brace.
pub fn contains_open(t: &str) -> (r: bool)
    ensures
        r == has_open(t@),
{
    let n = t.unicode_len();
    find_run(t, n, 0, '{', 2).is_some()
}

/// The first position at or after `i` whose character is no filler.
fn skip_filler_at(t: &str, n: usize, i: usize) -> (r: usize)
    requires
        n == t@.len(),
        i <= n,
    ensures
        r as int == skip_filler(t@, i as int),
{
    let mut q: usize = i;
    while q < n && filler_at(t, q)
        invariant
            n == t@.len(),
            i <= q <= n,
            skip_filler(t@, i as int) == skip_filler(t@, q as int),
        decreases n - q,
    {
        q = q + 1;
    }
    q
}

fn filler_at(t: &str, i: usize) -> (r: bool)
    requires
        i < t@.len(),
    ensures
        r == partial_filler(t@[i as int]),
{
    let c = t.get_char(i);
    c == ' ' || c == '\t' || c == '\n' || c == '\r' || c == '~' || c == '#'
}

/// Whether `t` holds a partial call.
pub fn contains_partial(t: &str) -> (r: bool)
    ensures
        r == has_partial(t@),
{
    let n = t.unicode_len();
    let mut p: usize = 0;
    while p < n
        invariant
            n == t@.len(),
            p <= n,
            forall|j: int| 0 <= j < p ==> !#[trigger] partial_at(t@, j),
        decreases n - p,
    {
        if run_at(t, n, p, '{', 2) {
            let q = skip_filler_at(t, n, p + 2);
            if q < n && t.get_char(q) == '>' {
                assert(partial_at(t@, p as int));
                return true;
            }
        }
        assert(!partial_at(t@, p as int));
        p = p + 1;
    }
    false
}

/// The JSON string escape of one character.
pub open spec fn json_char(c: char) -> Seq<char> {
    if c == '"' { "\\\""@ }
    else if c == '\\' { "\\\\"@ }
    else if c == '\n' { "\\n"@ }
    else if c == '\r' { "\\r"@ }
    else if c == '\t' { "\\t"@ }
    else if (c as u32) < 32 { "\\u00"@ + seq!["0123456789abcdef"@[((c as u32) / 16) as int], "0123456789abcdef"@[((c as u32) % 16) as int]] }
    else { seq![c] }
}

/// The JSON string escape of `s`.
pub open spec fn json_escape(s: Seq<char>) -> Seq<char>
    decreases s.len(),
{
    if s.len() == 0 {
        Seq::empty()
    } else {
        json_escape(s.drop_last()) + json_char(s.last())
    }
}

/// `s` as a JSON string.
pub open spec fn quote(s: Seq<char>) -> Seq<char> {
    "\""@ + json_escape(s) + "\""@
}

/// The JSON document handed to the renderer for `t`: mappings as objects,
/// sequences as arrays, booleans as such, and every other leaf as the string
/// of its text, so that null renders as `null` and numbers as written.
/// Helpers therefore see null and numbers as strings: `{{#if}}` holds for
/// null and for 0, and comparing helpers compare their text.
pub open spec fn json_of(t: Tree) -> Seq<char>
    decreases t,
{
    match t {
        Tree::Null => quote("null"@),
        Tree::Bool(b) => if b { "true"@ } else { "false"@ },
        Tree::Number(n) => quote(n),
        Tree::Text(s) => quote(s),
        Tree::Sequence(items) => "["@ + json_items(items) + "]"@,
        Tree::Mapping(es) => "{"@ + json_entries(es) + "}"@,
    }
}

pub open spec fn json_items(items: Seq<Tree>) -> Seq<char>
    decreases items,
{
    if items.len() == 0 {
        Seq::empty()
    } else {
        json_items(items.drop_last()) + (if items.len() > 1 { ","@ } else { Seq::empty() })
            + json_of(items.last())
    }
}

pub open spec fn json_entries(es: Seq<(Seq<char>, Tree)>) -> Seq<char>
    decreases es,
{
    if es.len() == 0 {
        Seq::empty()
    } else {
        json_entries(es.drop_last()) + (if es.len() > 1 { ","@ } else { Seq::empty() }) + quote(
            es.last().0,
        ) + ":"@ + json_of(es.last().1)
    }
}

/// What Handlebars renders for `template` against the JSON document `data`;
/// `None` when either cannot be read. serde_json reads no document nested
/// deeper than 128 levels, so a tree that deep renders nothing.
pub uninterp spec fn rendered(template: Seq<char>, data: Seq<char>) -> Option<Seq<char>>;

/// Relies on serde_json::from_str, which reads `data` as a JSON value, and on
/// handlebars' Registry::render_template with a default registry, which renders
/// `template` against it. The result depends on the two texts alone.
/// A partial call is left out: handlebars refuses only a partial that names
/// the template being rendered, so an inline partial that includes itself
/// recurses without end.
#[verifier::external_body]
fn handlebars_render(template: &str, data: &str) -> (r: Option<String>)
    requires
        !has_partial(template@),
    ensures
        r matches Some(s) ==> rendered(template@, data@) == Some(s@),
        r is None ==> rendered(template@, data@) is None,
{
    let value: serde_json::Value = serde_json::from_str(data).ok()?;
    handlebars::Handlebars::new().render_template(template, &value).ok()
}

/// Appends `s` as a JSON string to `out`.
fn push_quoted(out: &mut String, s: &str)
    ensures
        final(out)@ == old(out)@ + quote(s@),
{
    let n = s.unicode_len();
    out.append("\"");
    let ghost start = out@;
    let mut i: usize = 0;
    proof {
        reveal_strlit("0123456789abcdef");
    }
    while i < n
        invariant
            n == s@.len(),
            i <= n,
            out@ == start + json_escape(s@.take(i as int)),
            "0123456789abcdef"@.len() == 16,
        decreases n - i,
    {
        proof {
            assert(s@.take(i + 1).drop_last() =~= s@.take(i as int));
        }
        let ghost before = out@;
        let c = s.get_char(i);
        if c == '"' {
            out.append("\\\"");
        } else if c == '\\' {
            out.append("\\\\");
        } else if c == '\n' {
            out.append("\\n");
        } else if c == '\r' {
            out.append("\\r");
        } else if c == '\t' {
            out.append("\\t");
        } else if (c as u32) < 32 {
            let code = c as u32;
            let hi = (code / 16) as usize;
            let lo = (code % 16) as usize;
            out.append("\\u00");
            let h = "0123456789abcdef".substring_char(hi, hi + 1);
            let l = "0123456789abcdef".substring_char(lo, lo + 1);
            out.append(h);
            out.append(l);
            assert(h@ =~= seq!["0123456789abcdef"@[hi as int]]);
            assert(l@ =~= seq!["0123456789abcdef"@[lo as int]]);
            assert(out@ =~= before + json_char(c));
        } else {
            let piece = s.substring_char(i, i + 1);
            assert(piece@ =~= seq![c]);
            out.append(piece);
        }
        assert(out@ =~= start + json_escape(s@.take(i + 1)));
        i = i + 1;
    }
    out.append("\"");
    assert(s@.take(n as int) =~= s@);
    assert(out@ =~= old(out)@ + quote(s@));
}

/// Appends the JSON document of `v` to `out`.
fn push_json(out: &mut String, v: &Value)
    ensures
        final(out)@ == old(out)@ + json_of(v@),
    decreases v,
{
    match v {
        Value::Null => push_quoted(out, "null"),
        Value::Bool(b) => if *b {
            out.append("true");
        } else {
            out.append("false");
        },
        Value::Number(n) => push_quoted(out, n.as_str()),
        Value::Text(t) => push_quoted(out, t.as_str()),
        Value::Sequence(items) => {
            assert(decreases_to!(*v => v->Sequence_0));
            out.append("[");
            push_json_items(out, items);
            out.append("]");
            assert(out@ =~= old(out)@ + json_of(v@));
        },
        Value::Mapping(m) => {
            assert(decreases_to!(*v => v->Mapping_0));
            out.append("{");
            push_json_entries(out, m);
            out.append("}");
            assert(out@ =~= old(out)@ + json_of(v@));
        },
    }
}

fn push_json_items(out: &mut String, items: &Vec<Value>)
    ensures
        final(out)@ == old(out)@ + json_items(trees_of(items@)),
    decreases items,
{
    proof {
        lemma_trees_of(items@);
    }
    let ghost ts = trees_of(items@);
    let mut i: usize = 0;
    while i < items.len()
        invariant
            ts == trees_of(items@),
            ts.len() == items@.len(),
            forall|j: int| 0 <= j < items@.len() ==> #[trigger] ts[j] == tree_of(items@[j]),
            i <= items.len(),
            out@ == old(out)@ + json_items(ts.take(i as int)),
        decreases items.len() - i,
    {
        proof {
            assert(ts.take(i + 1).drop_last() =~= ts.take(i as int));
        }
        if i > 0 {
            out.append(",");
        }
        assert(decreases_to!(*items => items@[i as int]));
        push_json(out, &items[i]);
        assert(out@ =~= old(out)@ + json_items(ts.take(i + 1)));
        i = i + 1;
    }
    assert(ts.take(i as int) =~= ts);
}

fn push_json_entries(out: &mut String, m: &Mapping)
    ensures
        final(out)@ == old(out)@ + json_entries(m@),
    decreases m,
{
    proof {
        lemma_entries_of(m.entries@);
    }
    let mut i: usize = 0;
    while i < m.entries.len()
        invariant
            entries_of(m.entries@).len() == m.entries@.len(),
            forall|j: int|
                0 <= j < m.entries@.len() ==> #[trigger] entries_of(m.entries@)[j]
                    == (m.entries@[j].0@, tree_of(m.entries@[j].1)),
            i <= m.entries.len(),
            out@ == old(out)@ + json_entries(m@.take(i as int)),
        decreases m.entries.len() - i,
    {
        proof {
            assert(m@.take(i + 1).drop_last() =~= m@.take(i as int));
        }
        if i > 0 {
            out.append(",");
        }
        push_quoted(out, m.entries[i].0.as_str());
        out.append(":");
        assert(decreases_to!(*m => m.entries@[i as int].1));
        push_json(out, &m.entries[i].1);
        assert(out@ =~= old(out)@ + json_entries(m@.take(i + 1)));
        i = i + 1;
    }
    assert(m@.take(i as int) =~= m@);
}

/// The JSON document of `values`, as handed to the renderer.
pub fn data_of(values: &Mapping) -> (r: String)
    ensures
        r@ == json_of(Tree::Mapping(values@)),
{
    let mut r = String::new();
    r.append("{");
    push_json_entries(&mut r, values);
    r.append("}");
    assert(r@ =~= json_of(Tree::Mapping(values@)));
    r
}

/// The outcome of one rendering of `t` against the document `data`: none
/// for a template with a partial call, else what Handlebars renders.
pub open spec fn render_outcome(t: Seq<char>, data: Seq<char>) -> Option<Seq<char>> {
    if has_partial(t) {
        None
    } else {
        rendered(t, data)
    }
}

/// Renders `template` with Handlebars against the JSON document of
/// `values`; `None` when the template holds a partial call or fails.
pub fn render_template(template: &str, values: &Mapping) -> (r: Option<String>)
    ensures
        r matches Some(s) ==> render_outcome(template@, json_of(Tree::Mapping(values@))) == Some(s@),
        r is None ==> render_outcome(template@, json_of(Tree::Mapping(values@))) is None,
{
    if contains_partial(template) {
        return None;
    }
    let data = data_of(values);
    handlebars_render(template, data.as_str())
}

/// What follows one rendering.
#[derive(Debug, PartialEq, Eq)]
pub enum Step {
    /// The rendering failed.
    Fail(TemplateFailure),
    /// The output is rendered once more.
    Again(String),
    /// The output is final; `None` when it is empty.
    Done(Option<String>),
}

/// Whether an output of a rendering at `level` is rendered once more.
pub open spec fn again(r: Seq<char>, raw: bool, level: int) -> bool {
    has_open(r) && !raw && level == 0
}

/// What follows a rendering at `level` whose outcome is `result`: a failure
/// that names the pass, one more rendering of an output that still holds
/// `{{` (unless `raw`, and only from level 0), or the output, `None` when empty.
pub fn next_step(result: Option<String>, raw: bool, level: u8) -> (s: Step)
    ensures
        result is None ==> s == Step::Fail(if level == 0 { TemplateFailure::FirstPass } else { TemplateFailure::SecondPass }),
        result is Some && again(result->0@, raw, level as int) ==> s is Again && s->Again_0@ == result->0@,
        result is Some && !again(result->0@, raw, level as int) && result->0@.len() > 0 ==> s is Done
            && s->Done_0 is Some && s->Done_0->0@ == result->0@,
        result is Some && !again(result->0@, raw, level as int) && result->0@.len() == 0 ==> s is Done
            && s->Done_0 is None,
{
    match result {
        Some(x) => {
            if contains_open(x.as_str()) && !raw && level == 0 {
                Step::Again(x)
            } else if x.unicode_len() > 0 {
                Step::Done(Some(x))
            } else {
                Step::Done(None)
            }
        },
        None => Step::Fail(if level == 0 { TemplateFailure::FirstPass } else { TemplateFailure::SecondPass }),
    }
}

/// The outcome of resolving `t` against the document `data`: a failure, no
/// text, or the text; an output that still holds `{{` is rendered once more
/// unless `raw`, and only from level 0.
pub open spec fn resolve(t: Seq<char>, data: Seq<char>, raw: bool, level: int) -> Result<Option<Seq<char>>, TemplateFailure>
    decreases 1 - level,
{
    match render_outcome(t, data) {
        None => Err(if level == 0 { TemplateFailure::FirstPass } else { TemplateFailure::SecondPass }),
        Some(r) => if again(r, raw, level) {
            resolve(r, data, raw, 1)
        } else if r.len() > 0 {
            Ok(Some(r))
        } else {
            Ok(None)
        },
    }
}

/// Resolves `template` against `values`: one rendering, and a second over
/// its output when that still holds `{{`, `raw` is off and `level` is 0.
/// An empty result is `None`. A template with a partial call fails in its
/// pass, as does any template when `values` nests deeper than 128 levels.
pub fn resolve_value(template: &str, values: &Mapping, raw: bool, level: u8) -> (r: Result<Option<String>, TemplateFailure>)
    ensures
        r matches Ok(Some(s)) ==> resolve(template@, json_of(Tree::Mapping(values@)), raw, level as int) == Ok::<Option<Seq<char>>, TemplateFailure>(Some(s@)),
        r matches Ok(None) ==> resolve(template@, json_of(Tree::Mapping(values@)), raw, level as int) == Ok::<Option<Seq<char>>, TemplateFailure>(None),
        r matches Err(e) ==> resolve(template@, json_of(Tree::Mapping(values@)), raw, level as int) == Err::<Option<Seq<char>>, TemplateFailure>(e),
    decreases 1 - level,
{
    match next_step(render_template(template, values), raw, level) {
        Step::Fail(e) => Err(e),
        Step::Again(x) => resolve_value(x.as_str(), values, raw, level + 1),
        Step::Done(o) => Ok(o),
    }
}

/// The raw reference `{{{name}}}`.
pub fn wrap_name(name: &str) -> (r: String)
    ensures
        r@ == wrapped(name@),
{
    let mut r = String::from_str("{{{");
    r.append(name);
    r.append("}}}");
    proof {
        reveal_strlit("{{{");
        reveal_strlit("}}}");
        assert("{{{"@ =~= run('{', 3));
        assert("}}}"@ =~= run('}', 3));
    }
    r
}

/// The resolved text of the dotted path `name`, empty when it resolves to nothing.
pub fn get_value(values: &Mapping, name: &str, raw: bool) -> (r: Result<String, TemplateFailure>)
    ensures
        r matches Ok(s) ==> (resolve(wrapped(name@), json_of(Tree::Mapping(values@)), raw, 0) matches Ok(o) && s@ == match o {
            Some(x) => x,
            None => Seq::empty(),
        }),
        r matches Err(e) ==> resolve(wrapped(name@), json_of(Tree::Mapping(values@)), raw, 0) == Err::<Option<Seq<char>>, TemplateFailure>(e),
{
    let template = wrap_name(name);
    match resolve_value(template.as_str(), values, raw, 0) {
        Ok(Some(s)) => Ok(s),
        Ok(None) => Ok(String::new()),
        Err(e) => Err(e),
    }
}

/// Resolves `name` for a read: a name holding `{{` is a template, any
/// other is the dotted path of one value. `None` is no output.
pub fn read_value(values: &Mapping, name: &str, raw: bool) -> (r: Result<Option<String>, TemplateFailure>)
    ensures
        r matches Ok(Some(s)) ==> resolve(read_template(name@), json_of(Tree::Mapping(values@)), raw, 0) == Ok::<Option<Seq<char>>, TemplateFailure>(Some(s@)),
        r matches Ok(None) ==> resolve(read_template(name@), json_of(Tree::Mapping(values@)), raw, 0) == Ok::<Option<Seq<char>>, TemplateFailure>(None),
        r matches Err(e) ==> resolve(read_template(name@), json_of(Tree::Mapping(values@)), raw, 0) == Err::<Option<Seq<char>>, TemplateFailure>(e),
{
    if contains_open(name) {
        resolve_value(name, values, raw, 0)
    } else {
        let template = wrap_name(name);
        resolve_value(template.as_str(), values, raw, 0)
    }
}

} // verus!
