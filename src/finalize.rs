use vstd::prelude::*;

use crate::config::HoconLoaderConfig;
use crate::entries::HoconInternal;
use crate::merge::{merged, HoconIntermediate};
use crate::substitute::{fix_path, fixed_path, lemma_size_index, raw_opt, size_of, size_seq};
use crate::text::{chars_of, decimal, decimal_of, string_of, trim, trim_end, trim_end_of, trim_of, trim_start, trim_start_of};
use crate::tree::{find_in, forest_of, lemma_forest_index, lemma_forest_len, Child, KeyType, Node, Tree};
use crate::value::{copy_values, lemma_raw_seq_index, lemma_raw_seq_len, lemma_raw_seq_push, path_of, raw_seq, segment_text_of, HoconValue, RawValue};

verus! {

broadcast use vstd::std_specs::vec::axiom_vec_index_decreases;

/// A finalized value. A real number is held by its IEEE-754 bit pattern.
#[derive(Debug, PartialEq)]
pub enum Hocon {
    Real(u64),
    Integer(i64),
    String(String),
    Boolean(bool),
    Array(Vec<Hocon>),
    Hash(Vec<(String, Hocon)>),
    Null,
    BadValue,
}

/// The model of a finalized value.
pub enum Doc {
    Real(u64),
    Integer(i64),
    Text(Seq<char>),
    Boolean(bool),
    Array(Seq<Doc>),
    Hash(Seq<(Seq<char>, Doc)>),
    Null,
    Bad,
}

pub open spec fn doc_of(h: Hocon) -> Doc
    decreases h,
{
    match h {
        Hocon::Real(b) => Doc::Real(b),
        Hocon::Integer(i) => Doc::Integer(i),
        Hocon::String(s) => Doc::Text(s@),
        Hocon::Boolean(b) => Doc::Boolean(b),
        Hocon::Array(vs) => Doc::Array(docs_of(vs@)),
        Hocon::Hash(ps) => Doc::Hash(pairs_of(ps@)),
        Hocon::Null => Doc::Null,
        Hocon::BadValue => Doc::Bad,
    }
}

pub open spec fn docs_of(vs: Seq<Hocon>) -> Seq<Doc>
    decreases vs,
{
    if vs.len() == 0 {
        Seq::empty()
    } else {
        docs_of(vs.drop_last()).push(doc_of(vs.last()))
    }
}

pub open spec fn pairs_of(ps: Seq<(String, Hocon)>) -> Seq<(Seq<char>, Doc)>
    decreases ps,
{
    if ps.len() == 0 {
        Seq::empty()
    } else {
        pairs_of(ps.drop_last()).push((ps.last().0@, doc_of(ps.last().1)))
    }
}

impl View for Hocon {
    type V = Doc;

    open spec fn view(&self) -> Doc {
        doc_of(*self)
    }
}

/// A measure that shrinks as finalization descends.
pub open spec fn tree_size(t: Tree) -> nat
    decreases t,
{
    match t {
        Tree::Leaf(v) => size_of(v) + 1,
        Tree::Branch(cs, _) => forest_size(cs) + 2,
    }
}

pub open spec fn forest_size(cs: Seq<(RawValue, Tree)>) -> nat
    decreases cs,
{
    if cs.len() == 0 {
        0
    } else {
        forest_size(cs.drop_last()) + tree_size(cs.last().1)
    }
}

/// How many nodes a tree has.
pub open spec fn node_count(t: Tree) -> nat
    decreases t,
{
    match t {
        Tree::Leaf(_) => 1,
        Tree::Branch(cs, _) => 1 + forest_count(cs),
    }
}

pub open spec fn forest_count(cs: Seq<(RawValue, Tree)>) -> nat
    decreases cs,
{
    if cs.len() == 0 {
        0
    } else {
        forest_count(cs.drop_last()) + node_count(cs.last().1)
    }
}

/// A count held in a `usize`: the largest one where it does not fit.
pub open spec fn capped(x: nat) -> nat {
    if x > usize::MAX {
        usize::MAX as nat
    } else {
        x
    }
}

/// How many substitutions the second pass may follow from one value in the
/// completed tree `t`: one for each of its nodes. Every step of a chain lands
/// on a node of the tree, so a chain that visits no node twice ends within
/// the budget, and one that goes round a cycle yields the bad value.
pub open spec fn hop_budget(t: Tree) -> nat {
    capped(node_count(t))
}

/// What the environment holds, name and value.
pub type Env = Seq<(Seq<char>, Seq<char>)>;

pub open spec fn env_view(env: Seq<(String, String)>) -> Env {
    env.map_values(|p: (String, String)| (p.0@, p.1@))
}

/// The value of the first variable named `name`, from index `i` on.
pub open spec fn env_find(env: Env, name: Seq<char>, i: int) -> Option<Seq<char>>
    decreases env.len() - i,
{
    if i < 0 || i >= env.len() {
        None
    } else if env[i].0 == name {
        Some(env[i].1)
    } else {
        env_find(env, name, i + 1)
    }
}

/// The name of the variable that a path stands for: its segments joined with
/// dots, where each has a text.
pub open spec fn env_name(p: Seq<RawValue>) -> Option<Seq<char>>
    decreases p.len(),
{
    if p.len() == 0 {
        Some(Seq::empty())
    } else {
        match (env_name(p.drop_last()), segment_text_of(p.last())) {
            (Some(a), Some(b)) => Some(
                if p.len() == 1 {
                    b
                } else {
                    a + seq!['.'] + b
                },
            ),
            _ => None,
        }
    }
}

/// What a substitution that the tree cannot resolve falls back to.
pub open spec fn env_fallback(env: Env, p: RawValue) -> Doc {
    match env_name(path_of(p)) {
        Some(name) => match env_find(env, name, 0) {
            Some(v) => Doc::Text(v),
            None => Doc::Bad,
        },
        None => Doc::Bad,
    }
}

pub open spec fn null_text() -> Seq<char> {
    seq!['n', 'u', 'l', 'l']
}

/// An unquoted text finalized: the word `null` is the null value; outside a
/// concatenation the text is trimmed.
pub open spec fn fin_unquoted(s: Seq<char>, in_concat: bool) -> Doc {
    if s == null_text() {
        Doc::Null
    } else if in_concat {
        Doc::Text(s)
    } else {
        Doc::Text(trim_of(s))
    }
}

/// The text a finalized member gives to a concatenation, if any.
pub open spec fn text_of(d: Doc) -> Seq<char> {
    match d {
        Doc::Text(s) => s,
        Doc::Boolean(b) => if b {
            seq!['t', 'r', 'u', 'e']
        } else {
            seq!['f', 'a', 'l', 's', 'e']
        },
        Doc::Integer(i) => decimal_of(i as int),
        _ => Seq::empty(),
    }
}

/// An unquoted member at index `i` of `n`: the first loses its leading
/// whitespace, any other last one its trailing whitespace.
pub open spec fn edge_trimmed(s: Seq<char>, i: int, n: int) -> Seq<char> {
    if i == 0 {
        trim_start_of(s)
    } else if i == n - 1 {
        trim_end_of(s)
    } else {
        s
    }
}

/// The finalized value at `at`, read in the completed tree `root`; `inc` is
/// the path of the enclosing include mark, where there is one.
pub open spec fn fin_value(
    v: RawValue,
    root: Tree,
    env: Env,
    system: bool,
    in_concat: bool,
    inc: Option<Seq<RawValue>>,
    at: Seq<RawValue>,
    fuel: nat,
) -> Doc
    decreases fuel, size_of(v),
{
    match v {
        RawValue::Null => Doc::Null,
        RawValue::Bad => Doc::Bad,
        RawValue::Boolean(b) => Doc::Boolean(b),
        RawValue::Integer(i) => Doc::Integer(i),
        RawValue::Real(b) => Doc::Real(b),
        RawValue::Quoted(s) => Doc::Text(s),
        RawValue::Unquoted(s) => fin_unquoted(s, in_concat),
        RawValue::Concat(vs) => Doc::Text(fin_members(vs, vs.len() as int, root, env, system, inc, at, fuel)),
        RawValue::Subst(p) => {
            if fuel == 0 {
                Doc::Bad
            } else {
                let fixed = match inc {
                    Some(ip) => fix_path(at, ip.len(), *p),
                    None => path_of(*p),
                };
                let d = fin_tree(find_in(root, fixed), root, env, system, inc, at, (fuel - 1) as nat);
                if system && d == Doc::Bad {
                    env_fallback(env, *p)
                } else {
                    d
                }
            }
        },
        RawValue::Included(b, op) => fin_value(*b, root, env, system, in_concat, Some(op), at, fuel),
        RawValue::EmptyObject => Doc::Hash(Seq::empty()),
        RawValue::EmptyArray => Doc::Array(Seq::empty()),
    }
}

/// The joined text of the members of a concatenation of `n` members.
pub open spec fn fin_members(
    vs: Seq<RawValue>,
    n: int,
    root: Tree,
    env: Env,
    system: bool,
    inc: Option<Seq<RawValue>>,
    at: Seq<RawValue>,
    fuel: nat,
) -> Seq<char>
    decreases fuel, size_seq(vs) + 1,
{
    if vs.len() == 0 {
        Seq::empty()
    } else {
        let i = vs.len() - 1;
        let m = vs.last();
        let d = match m {
            RawValue::Unquoted(s) => fin_unquoted(edge_trimmed(s, i, n), true),
            _ => fin_value(m, root, env, system, true, inc, at, fuel),
        };
        fin_members(vs.drop_last(), n, root, env, system, inc, at, fuel) + text_of(d)
    }
}

/// The finalized node: a leaf's value, or an array or a map of the children,
/// by the kind of the first child's key, or by the hint where there is none.
pub open spec fn fin_tree(
    t: Tree,
    root: Tree,
    env: Env,
    system: bool,
    inc: Option<Seq<RawValue>>,
    at: Seq<RawValue>,
    fuel: nat,
) -> Doc
    decreases fuel, tree_size(t),
{
    match t {
        Tree::Leaf(v) => fin_value(v, root, env, system, false, inc, at, fuel),
        Tree::Branch(cs, h) => if cs.len() == 0 {
            if h == Some(KeyType::Int) {
                Doc::Array(Seq::empty())
            } else {
                Doc::Hash(Seq::empty())
            }
        } else if cs[0].0 is Integer {
            Doc::Array(fin_items(cs, root, env, system, inc, at, fuel))
        } else {
            Doc::Hash(fin_entries(cs, cs, root, env, system, inc, at, fuel))
        },
    }
}

pub open spec fn fin_items(
    cs: Seq<(RawValue, Tree)>,
    root: Tree,
    env: Env,
    system: bool,
    inc: Option<Seq<RawValue>>,
    at: Seq<RawValue>,
    fuel: nat,
) -> Seq<Doc>
    decreases fuel, forest_size(cs) + 1,
    via fin_items_decreases
{
    if cs.len() == 0 {
        Seq::empty()
    } else {
        fin_items(cs.drop_last(), root, env, system, inc, at, fuel).push(
            fin_tree(cs.last().1, root, env, system, inc, at.push(cs.last().0), fuel),
        )
    }
}

/// Whether a child after index `i` of `all` has the key text `k`.
pub open spec fn shadowed(all: Seq<(RawValue, Tree)>, i: int, k: Seq<char>) -> bool {
    exists|j: int| i < j < all.len() && #[trigger] segment_text_of(all[j].0) == Some(k)
}

/// The children of a map, each under its key's text, where `cs` is a prefix
/// of all the children `all`. A child whose key has no text is left out, and
/// so is one whose key text a later child has: the later one wins, so no key
/// text appears twice.
pub open spec fn fin_entries(
    cs: Seq<(RawValue, Tree)>,
    all: Seq<(RawValue, Tree)>,
    root: Tree,
    env: Env,
    system: bool,
    inc: Option<Seq<RawValue>>,
    at: Seq<RawValue>,
    fuel: nat,
) -> Seq<(Seq<char>, Doc)>
    decreases fuel, forest_size(cs) + 1,
    via fin_entries_decreases
{
    if cs.len() == 0 {
        Seq::empty()
    } else {
        let rest = fin_entries(cs.drop_last(), all, root, env, system, inc, at, fuel);
        match segment_text_of(cs.last().0) {
            Some(k) => if shadowed(all, cs.len() - 1, k) {
                rest
            } else {
                rest.push((k, fin_tree(cs.last().1, root, env, system, inc, at.push(cs.last().0), fuel)))
            },
            None => rest,
        }
    }
}

#[via_fn]
proof fn fin_items_decreases(
    cs: Seq<(RawValue, Tree)>,
    root: Tree,
    env: Env,
    system: bool,
    inc: Option<Seq<RawValue>>,
    at: Seq<RawValue>,
    fuel: nat,
) {
    if cs.len() > 0 {
        lemma_tree_size_pos(cs.last().1);
    }
}

#[via_fn]
proof fn fin_entries_decreases(
    cs: Seq<(RawValue, Tree)>,
    all: Seq<(RawValue, Tree)>,
    root: Tree,
    env: Env,
    system: bool,
    inc: Option<Seq<RawValue>>,
    at: Seq<RawValue>,
    fuel: nat,
) {
    if cs.len() > 0 {
        lemma_tree_size_pos(cs.last().1);
    }
}

proof fn lemma_tree_size_pos(t: Tree)
    ensures
        tree_size(t) >= 1,
{
}

proof fn lemma_forest_size_index(cs: Seq<(RawValue, Tree)>, j: int)
    requires
        0 <= j < cs.len(),
    ensures
        tree_size(cs[j].1) <= forest_size(cs),
    decreases cs.len(),
{
    if j < cs.len() - 1 {
        lemma_forest_size_index(cs.drop_last(), j);
    }
}

/// Whether two texts are equal.
fn same_chars(a: &Vec<char>, b: &Vec<char>) -> (r: bool)
    ensures
        r == (a@ == b@),
{
    if a.len() != b.len() {
        return false;
    }
    let mut i: usize = 0;
    while i < a.len()
        invariant
            i <= a.len() == b.len(),
            forall|j: int| 0 <= j < i ==> a@[j] == b@[j],
        decreases a.len() - i,
    {
        if a[i] != b[i] {
            return false;
        }
        i = i + 1;
    }
    proof {
        assert(a@ =~= b@);
    }
    true
}

fn text(cs: &[char]) -> (r: Vec<char>)
    ensures
        r@ == cs@,
{
    let mut r: Vec<char> = Vec::new();
    let mut i: usize = 0;
    while i < cs.len()
        invariant
            i <= cs.len(),
            r@ == cs@.take(i as int),
        decreases cs.len() - i,
    {
        r.push(cs[i]);
        i = i + 1;
        proof {
            assert(cs@.take(i as int) == cs@.take(i - 1).push(cs@[i - 1]));
        }
    }
    proof {
        assert(cs@.take(cs.len() as int) == cs@);
    }
    r
}

/// The value of the first variable of the environment named `name`.
pub fn env_lookup(env: &Vec<(String, String)>, name: &Vec<char>) -> (r: Option<String>)
    ensures
        r matches Some(v) ==> env_find(env_view(env@), name@, 0) == Some(v@),
        r is None ==> env_find(env_view(env@), name@, 0) is None,
{
    let ghost e = env_view(env@);
    let mut i: usize = 0;
    while i < env.len()
        invariant
            i <= env.len(),
            e == env_view(env@),
            env_find(e, name@, 0) == env_find(e, name@, i as int),
        decreases env.len() - i,
    {
        if same_chars(&chars_of(env[i].0.as_str()), name) {
            return Some(env[i].1.clone());
        }
        i = i + 1;
    }
    None
}

/// The name of the variable that a path stands for.
pub fn env_name_of(p: &Vec<HoconValue>) -> (r: Option<Vec<char>>)
    ensures
        r matches Some(x) ==> env_name(raw_seq(p@)) == Some(x@),
        r is None ==> env_name(raw_seq(p@)) is None,
{
    let mut out: Vec<char> = Vec::new();
    let mut i: usize = 0;
    proof {
        lemma_raw_seq_len(p@);
        assert(raw_seq(p@).take(0) =~= Seq::<RawValue>::empty());
    }
    while i < p.len()
        invariant
            i <= p.len(),
            raw_seq(p@).len() == p.len(),
            env_name(raw_seq(p@).take(i as int)) == Some(out@),
        decreases p.len() - i,
    {
        proof {
            lemma_raw_seq_index(p@, i as int);
            assert(raw_seq(p@).take(i + 1).drop_last() == raw_seq(p@).take(i as int));
        }
        match p[i].segment_text() {
            None => {
                proof {
                    assert(raw_seq(p@).take(i + 1).last() == raw_seq(p@)[i as int]);
                    lemma_env_name_none(raw_seq(p@), i as int + 1);
                }
                return None;
            },
            Some(t) => {
                if i > 0 {
                    out.push('.');
                }
                let mut k: usize = 0;
                let ghost before = out@;
                while k < t.len()
                    invariant
                        k <= t.len(),
                        out@ == before + t@.take(k as int),
                    decreases t.len() - k,
                {
                    out.push(t[k]);
                    k = k + 1;
                    proof {
                        assert(before + t@.take(k as int) == (before + t@.take(k - 1)).push(t@[k - 1]));
                    }
                }
                proof {
                    assert(t@.take(t.len() as int) == t@);
                    if i == 0 {
                        assert(before == Seq::<char>::empty());
                        assert(out@ == t@);
                    }
                }
            },
        }
        i = i + 1;
    }
    proof {
        assert(raw_seq(p@).take(p.len() as int) == raw_seq(p@));
    }
    Some(out)
}

proof fn lemma_env_name_none(p: Seq<RawValue>, i: int)
    requires
        0 < i <= p.len(),
        env_name(p.take(i)) is None,
    ensures
        env_name(p) is None,
    decreases p.len() - i,
{
    if i < p.len() {
        assert(p.take(i + 1).drop_last() == p.take(i));
        lemma_env_name_none(p, i + 1);
    } else {
        assert(p.take(i) == p);
    }
}

/// An unquoted text finalized.
fn unquoted_doc(s: &Vec<char>, in_concat: bool) -> (r: Hocon)
    ensures
        r@ == fin_unquoted(s@, in_concat),
{
    let null = text(&['n', 'u', 'l', 'l']);
    proof {
        assert(null@ =~= null_text());
    }
    if same_chars(s, &null) {
        Hocon::Null
    } else if in_concat {
        Hocon::String(string_of(s))
    } else {
        Hocon::String(string_of(&trim(s)))
    }
}

/// The text a finalized member gives to a concatenation.
fn member_text(d: &Hocon) -> (r: Vec<char>)
    ensures
        r@ == text_of(d@),
{
    match d {
        Hocon::String(s) => chars_of(s.as_str()),
        Hocon::Boolean(b) => {
            if *b {
                let r = text(&['t', 'r', 'u', 'e']);
                proof {
                    assert(r@ =~= seq!['t', 'r', 'u', 'e']);
                }
                r
            } else {
                let r = text(&['f', 'a', 'l', 's', 'e']);
                proof {
                    assert(r@ =~= seq!['f', 'a', 'l', 's', 'e']);
                }
                r
            }
        },
        Hocon::Integer(i) => decimal(*i),
        _ => Vec::new(),
    }
}

fn is_bad(d: &Hocon) -> (r: bool)
    ensures
        r == (d@ == Doc::Bad),
{
    match d {
        Hocon::BadValue => true,
        _ => false,
    }
}

/// `at` with `key` after it.
fn extended(at: &Vec<HoconValue>, key: &HoconValue) -> (r: Vec<HoconValue>)
    ensures
        raw_seq(r@) == raw_seq(at@).push(key@),
{
    let mut r = copy_values(at);
    let k = key.copy();
    proof {
        lemma_raw_seq_push(r@, k);
    }
    r.push(k);
    r
}

/// The finalized value of `v` at `at`, read in the completed tree `root`.
pub fn finalize_value(
    v: &HoconValue,
    root: &Node,
    env: &Vec<(String, String)>,
    system: bool,
    in_concat: bool,
    inc: Option<&Vec<HoconValue>>,
    at: &Vec<HoconValue>,
    fuel: usize,
) -> (r: Hocon)
    ensures
        r@ == fin_value(v@, root@, env_view(env@), system, in_concat, raw_opt(inc), raw_seq(at@), fuel as nat),
    decreases fuel, size_of(v@),
{
    match v {
        HoconValue::Null => Hocon::Null,
        HoconValue::BadValue => Hocon::BadValue,
        HoconValue::Boolean(b) => Hocon::Boolean(*b),
        HoconValue::Integer(i) => Hocon::Integer(*i),
        HoconValue::Real(b) => Hocon::Real(*b),
        HoconValue::String(s) => Hocon::String(s.clone()),
        HoconValue::UnquotedString(s) => unquoted_doc(&chars_of(s.as_str()), in_concat),
        HoconValue::Concat(values) => {
            proof {
                lemma_raw_seq_len(values@);
            }
            Hocon::String(string_of(&finalize_members(values, root, env, system, inc, at, fuel)))
        },
        HoconValue::PathSubstitution(p) => {
            if fuel == 0 {
                return Hocon::BadValue;
            }
            let fixed = match inc {
                Some(ip) => {
                    proof {
                        lemma_raw_seq_len(ip@);
                    }
                    fixed_path(at, ip.len(), &**p)
                },
                None => (**p).to_path(),
            };
            let found = root.find_key(&fixed);
            let d = finalize_node(&found, root, env, system, inc, at, fuel - 1);
            if system && is_bad(&d) {
                match env_name_of(&(**p).to_path()) {
                    Some(name) => match env_lookup(env, &name) {
                        Some(val) => Hocon::String(val),
                        None => Hocon::BadValue,
                    },
                    None => Hocon::BadValue,
                }
            } else {
                d
            }
        },
        HoconValue::Included { value, original_path } => finalize_value(
            &**value,
            root,
            env,
            system,
            in_concat,
            Some(original_path),
            at,
            fuel,
        ),
        HoconValue::EmptyObject => {
            let r = Hocon::Hash(Vec::new());
            proof {
                assert(pairs_of(Seq::<(String, Hocon)>::empty()) =~= Seq::<(Seq<char>, Doc)>::empty());
            }
            r
        },
        HoconValue::EmptyArray => {
            let r = Hocon::Array(Vec::new());
            proof {
                assert(docs_of(Seq::<Hocon>::empty()) =~= Seq::<Doc>::empty());
            }
            r
        },
    }
}

/// The joined text of the members of a concatenation.
pub fn finalize_members(
    values: &Vec<HoconValue>,
    root: &Node,
    env: &Vec<(String, String)>,
    system: bool,
    inc: Option<&Vec<HoconValue>>,
    at: &Vec<HoconValue>,
    fuel: usize,
) -> (r: Vec<char>)
    ensures
        r@ == fin_members(
            raw_seq(values@),
            values@.len() as int,
            root@,
            env_view(env@),
            system,
            raw_opt(inc),
            raw_seq(at@),
            fuel as nat,
        ),
    decreases fuel, size_seq(raw_seq(values@)) + 1,
{
    let ghost vs = raw_seq(values@);
    let n = values.len();
    proof {
        lemma_raw_seq_len(values@);
        assert(vs.take(0) =~= Seq::<RawValue>::empty());
    }
    let mut out: Vec<char> = Vec::new();
    let mut i: usize = 0;
    while i < n
        invariant
            i <= n == values.len(),
            vs == raw_seq(values@),
            vs.len() == n,
            out@ == fin_members(
                vs.take(i as int),
                n as int,
                root@,
                env_view(env@),
                system,
                raw_opt(inc),
                raw_seq(at@),
                fuel as nat,
            ),
        decreases n - i,
    {
        proof {
            lemma_raw_seq_index(values@, i as int);
            lemma_size_index(vs, i as int);
            assert(vs.take(i + 1).drop_last() == vs.take(i as int));
            assert(vs.take(i + 1).last() == vs[i as int]);
        }
        let d = match &values[i] {
            HoconValue::UnquotedString(s) => {
                let cs = chars_of(s.as_str());
                let t = if i == 0 {
                    trim_start(&cs)
                } else if i == n - 1 {
                    trim_end(&cs)
                } else {
                    cs
                };
                unquoted_doc(&t, true)
            },
            other => finalize_value(other, root, env, system, true, inc, at, fuel),
        };
        let piece = member_text(&d);
        let mut k: usize = 0;
        let ghost before = out@;
        while k < piece.len()
            invariant
                k <= piece.len(),
                out@ == before + piece@.take(k as int),
            decreases piece.len() - k,
        {
            out.push(piece[k]);
            k = k + 1;
            proof {
                assert(before + piece@.take(k as int) == (before + piece@.take(k - 1)).push(piece@[k - 1]));
            }
        }
        proof {
            assert(piece@.take(piece.len() as int) == piece@);
        }
        i = i + 1;
    }
    proof {
        assert(vs.take(n as int) == vs);
    }
    out
}

/// The finalized node at `at`, read in the completed tree `root`.
pub fn finalize_node(
    node: &Node,
    root: &Node,
    env: &Vec<(String, String)>,
    system: bool,
    inc: Option<&Vec<HoconValue>>,
    at: &Vec<HoconValue>,
    fuel: usize,
) -> (r: Hocon)
    ensures
        r@ == fin_tree(node@, root@, env_view(env@), system, raw_opt(inc), raw_seq(at@), fuel as nat),
    decreases fuel, tree_size(node@),
{
    match node {
        Node::Leaf(v) => finalize_value(v, root, env, system, false, inc, at, fuel),
        Node::Node { children, key_hint } => {
            let ghost f = forest_of(children@);
            proof {
                lemma_forest_len(children@);
            }
            if children.len() == 0 {
                return match key_hint {
                    Some(KeyType::Int) => Hocon::Array(Vec::new()),
                    _ => Hocon::Hash(Vec::new()),
                };
            }
            proof {
                lemma_forest_index(children@, 0);
                assert(f.take(0) =~= Seq::<(RawValue, Tree)>::empty());
            }
            let as_array = match &children[0].key {
                HoconValue::Integer(_) => true,
                _ => false,
            };
            if as_array {
                let mut out: Vec<Hocon> = Vec::new();
                let mut i: usize = 0;
                while i < children.len()
                    invariant
                        *node == (Node::Node { children: *children, key_hint: *key_hint }),
                        i <= children.len(),
                        f == forest_of(children@),
                        f.len() == children.len(),
                        docs_of(out@) == fin_items(f.take(i as int), root@, env_view(env@), system, raw_opt(inc), raw_seq(at@), fuel as nat),
                    decreases children.len() - i,
                {
                    proof {
                        lemma_forest_index(children@, i as int);
                        lemma_forest_size_index(f, i as int);
                        assert(f.take(i + 1).drop_last() == f.take(i as int));
                        assert(f.take(i + 1).last() == f[i as int]);
                    }
                    let here = extended(at, &children[i].key);
                    let d = finalize_node(&children[i].value, root, env, system, inc, &here, fuel);
                    proof {
                        assert(out@.push(d).drop_last() == out@);
                    }
                    out.push(d);
                    i = i + 1;
                }
                proof {
                    assert(f.take(children.len() as int) == f);
                }
                Hocon::Array(out)
            } else {
                let mut out: Vec<(String, Hocon)> = Vec::new();
                let mut i: usize = 0;
                while i < children.len()
                    invariant
                        *node == (Node::Node { children: *children, key_hint: *key_hint }),
                        i <= children.len(),
                        f == forest_of(children@),
                        f.len() == children.len(),
                        pairs_of(out@) == fin_entries(f.take(i as int), f, root@, env_view(env@), system, raw_opt(inc), raw_seq(at@), fuel as nat),
                    decreases children.len() - i,
                {
                    proof {
                        lemma_forest_index(children@, i as int);
                        lemma_forest_size_index(f, i as int);
                        assert(f.take(i + 1).drop_last() == f.take(i as int));
                        assert(f.take(i + 1).last() == f[i as int]);
                    }
                    match children[i].key.segment_text() {
                        Some(k) if !later_has_key(children, i, &k) => {
                            let here = extended(at, &children[i].key);
                            let d = finalize_node(&children[i].value, root, env, system, inc, &here, fuel);
                            let pair = (string_of(&k), d);
                            proof {
                                assert(out@.push(pair).drop_last() == out@);
                            }
                            out.push(pair);
                        },
                        _ => {},
                    }
                    i = i + 1;
                }
                proof {
                    assert(f.take(children.len() as int) == f);
                }
                Hocon::Hash(out)
            }
        },
    }
}

/// Whether a child after index `i` has the key text `k`.
fn later_has_key(children: &Vec<Child>, i: usize, k: &Vec<char>) -> (r: bool)
    requires
        i < children.len(),
    ensures
        r == shadowed(forest_of(children@), i as int, k@),
{
    let ghost f = forest_of(children@);
    proof {
        lemma_forest_len(children@);
    }
    let mut j: usize = i + 1;
    while j < children.len()
        invariant
            i < j <= children.len(),
            f == forest_of(children@),
            f.len() == children.len(),
            forall|m: int| i < m < j ==> #[trigger] segment_text_of(f[m].0) != Some(k@),
        decreases children.len() - j,
    {
        proof {
            lemma_forest_index(children@, j as int);
        }
        match children[j].key.segment_text() {
            Some(t) => {
                if same_chars(&t, k) {
                    proof {
                        assert(segment_text_of(f[j as int].0) == Some(k@));
                    }
                    return true;
                }
            },
            None => {},
        }
        j = j + 1;
    }
    false
}

/// The sum of two capped counts, capped.
fn add_capped(a: usize, b: usize) -> (r: usize)
    ensures
        forall|x: nat, y: nat| #![trigger capped(x), capped(y)] a == capped(x) && b == capped(y) ==> r == capped(x + y),
{
    if a > usize::MAX - b {
        usize::MAX
    } else {
        a + b
    }
}

/// The number of nodes under the children, each counted with its subtree.
fn count_children(children: &Vec<Child>) -> (r: usize)
    ensures
        r == capped(forest_count(forest_of(children@))),
    decreases children, 0nat,
{
    let ghost f = forest_of(children@);
    proof {
        lemma_forest_len(children@);
        assert(f.take(0) =~= Seq::<(RawValue, Tree)>::empty());
    }
    let mut acc: usize = 0;
    let mut i: usize = 0;
    while i < children.len()
        invariant
            i <= children.len(),
            f == forest_of(children@),
            f.len() == children.len(),
            acc == capped(forest_count(f.take(i as int))),
        decreases children.len() - i,
    {
        proof {
            assert(decreases_to!(*children => children[i as int]));
            lemma_forest_index(children@, i as int);
            assert(f.take(i + 1).drop_last() == f.take(i as int));
            assert(f.take(i + 1).last() == f[i as int]);
        }
        let c = count_nodes(&children[i].value);
        proof {
            assert(c == capped(node_count(f[i as int].1)));
        }
        acc = add_capped(acc, c);
        i = i + 1;
    }
    proof {
        assert(f.take(children.len() as int) == f);
    }
    acc
}

/// The number of nodes of a tree, where it fits in a `usize`.
pub fn count_nodes(n: &Node) -> (r: usize)
    ensures
        r == capped(node_count(n@)),
    decreases n, 1nat,
{
    match n {
        Node::Leaf(_) => 1,
        Node::Node { children, .. } => {
            let c = count_children(children);
            proof {
                assert(capped(1) == 1);
                assert(c == capped(forest_count(forest_of(children@))));
            }
            add_capped(1, c)
        },
    }
}

impl HoconIntermediate {
    /// The finalized document: every node resolved against the completed
    /// tree, with the environment as fallback where `config.system` is set.
    pub fn finalize(self, config: &HoconLoaderConfig, env: &Vec<(String, String)>) -> (r: Hocon)
        ensures
            r@ == fin_tree(
                self.tree@,
                self.tree@,
                env_view(env@),
                config.system,
                None,
                Seq::empty(),
                hop_budget(self.tree@),
            ),
    {
        let at: Vec<HoconValue> = Vec::new();
        proof {
            assert(raw_seq(at@) =~= Seq::<RawValue>::empty());
        }
        let budget = count_nodes(&self.tree);
        finalize_node(&self.tree, &self.tree, env, config.system, None, &at, budget)
    }
}

/// The finalized document that a list of entries describes: the entries
/// merged in order, then every node resolved against the completed tree.
pub fn resolve(entries: HoconInternal, config: &HoconLoaderConfig, env: &Vec<(String, String)>) -> (r: Hocon)
    ensures
        r@ == fin_tree(
            merged(entries@),
            merged(entries@),
            env_view(env@),
            config.system,
            None,
            Seq::empty(),
            hop_budget(merged(entries@)),
        ),
{
    match entries.merge() {
        Ok(tree) => tree.finalize(config, env),
        Err(()) => Hocon::BadValue,
    }
}

} // verus!
