use vstd::prelude::*;

use crate::text::{blank, chars_of, is_blank, split_dots, split_on_dots, string_of, trim, trim_of};

verus! {

broadcast use vstd::std_specs::vec::axiom_vec_index_decreases;

/// An unresolved value as the syntax layer hands it over. A real number is held
/// by its IEEE-754 bit pattern.
#[derive(Debug)]
pub enum HoconValue {
    Real(u64),
    Integer(i64),
    String(String),
    UnquotedString(String),
    Boolean(bool),
    Concat(Vec<HoconValue>),
    PathSubstitution(Box<HoconValue>),
    Null,
    BadValue,
    EmptyObject,
    EmptyArray,
    Included { value: Box<HoconValue>, original_path: Vec<HoconValue> },
}

/// The mathematical model of a `HoconValue`.
pub enum RawValue {
    Real(u64),
    Integer(i64),
    Quoted(Seq<char>),
    Unquoted(Seq<char>),
    Boolean(bool),
    Concat(Seq<RawValue>),
    Subst(Box<RawValue>),
    Null,
    Bad,
    EmptyObject,
    EmptyArray,
    Included(Box<RawValue>, Seq<RawValue>),
}

pub open spec fn raw_of(v: HoconValue) -> RawValue
    decreases v,
{
    match v {
        HoconValue::Real(b) => RawValue::Real(b),
        HoconValue::Integer(i) => RawValue::Integer(i),
        HoconValue::String(s) => RawValue::Quoted(s@),
        HoconValue::UnquotedString(s) => RawValue::Unquoted(s@),
        HoconValue::Boolean(b) => RawValue::Boolean(b),
        HoconValue::Concat(vs) => RawValue::Concat(raw_seq(vs@)),
        HoconValue::PathSubstitution(b) => RawValue::Subst(Box::new(raw_of(*b))),
        HoconValue::Null => RawValue::Null,
        HoconValue::BadValue => RawValue::Bad,
        HoconValue::EmptyObject => RawValue::EmptyObject,
        HoconValue::EmptyArray => RawValue::EmptyArray,
        HoconValue::Included { value, original_path } => RawValue::Included(
            Box::new(raw_of(*value)),
            raw_seq(original_path@),
        ),
    }
}

pub open spec fn raw_seq(vs: Seq<HoconValue>) -> Seq<RawValue>
    decreases vs,
{
    if vs.len() == 0 {
        Seq::empty()
    } else {
        raw_seq(vs.drop_last()).push(raw_of(vs.last()))
    }
}

impl View for HoconValue {
    type V = RawValue;

    open spec fn view(&self) -> RawValue {
        raw_of(*self)
    }
}

pub proof fn lemma_raw_seq_len(a: Seq<HoconValue>)
    ensures
        raw_seq(a).len() == a.len(),
    decreases a.len(),
{
    if a.len() > 0 {
        lemma_raw_seq_len(a.drop_last());
    }
}

pub proof fn lemma_raw_seq_index(a: Seq<HoconValue>, j: int)
    requires
        0 <= j < a.len(),
    ensures
        raw_seq(a)[j] == raw_of(a[j]),
    decreases a.len(),
{
    lemma_raw_seq_len(a.drop_last());
    if j < a.len() - 1 {
        lemma_raw_seq_index(a.drop_last(), j);
    }
}

pub proof fn lemma_raw_seq_push(a: Seq<HoconValue>, v: HoconValue)
    ensures
        raw_seq(a.push(v)) == raw_seq(a).push(raw_of(v)),
{
    assert(a.push(v).drop_last() == a);
}

pub proof fn lemma_raw_seq_ext(a: Seq<HoconValue>, b: Seq<HoconValue>)
    requires
        a.len() == b.len(),
        forall|j: int| 0 <= j < a.len() ==> raw_of(#[trigger] a[j]) == raw_of(b[j]),
    ensures
        raw_seq(a) == raw_seq(b),
    decreases a.len(),
{
    if a.len() > 0 {
        lemma_raw_seq_ext(a.drop_last(), b.drop_last());
    }
}

/// Equality of two values taken as keys: integers and quoted texts compare by
/// content, the bad value equals itself, nothing else equals anything.
pub open spec fn key_match(a: RawValue, b: RawValue) -> bool {
    match (a, b) {
        (RawValue::Integer(x), RawValue::Integer(y)) => x == y,
        (RawValue::Quoted(x), RawValue::Quoted(y)) => x == y,
        (RawValue::Bad, RawValue::Bad) => true,
        _ => false,
    }
}

impl PartialEq for HoconValue {
    fn eq(&self, rhs: &Self) -> (r: bool)
        ensures
            r == key_match(self@, rhs@),
    {
        match (self, rhs) {
            (HoconValue::Integer(left), HoconValue::Integer(right)) => *left == *right,
            (HoconValue::String(left), HoconValue::String(right)) => *left == *right,
            (HoconValue::BadValue, HoconValue::BadValue) => true,
            _ => false,
        }
    }
}

impl vstd::std_specs::cmp::PartialEqSpecImpl for HoconValue {
    open spec fn obeys_eq_spec() -> bool {
        false
    }

    open spec fn eq_spec(&self, rhs: &HoconValue) -> bool {
        key_match(self@, rhs@)
    }
}

/// Copies of a sequence of values, element by element.
pub fn copy_values(vs: &Vec<HoconValue>) -> (r: Vec<HoconValue>)
    ensures
        raw_seq(r@) == raw_seq(vs@),
    decreases vs, 0nat,
{
    let mut out: Vec<HoconValue> = Vec::new();
    let mut i: usize = 0;
    while i < vs.len()
        invariant
            i <= vs.len(),
            out.len() == i,
            forall|j: int| 0 <= j < i ==> raw_of(#[trigger] out[j]) == raw_of(vs[j]),
        decreases vs.len() - i,
    {
        proof {
            assert(decreases_to!(*vs => vs[i as int]));
        }
        let c = vs[i].copy();
        out.push(c);
        i = i + 1;
    }
    proof {
        lemma_raw_seq_ext(out@, vs@);
    }
    out
}

impl HoconValue {
    /// A copy that shares nothing with `self`.
    pub fn copy(&self) -> (r: HoconValue)
        ensures
            r@ == self@,
        decreases self, 1nat,
    {
        match self {
            HoconValue::Real(b) => HoconValue::Real(*b),
            HoconValue::Integer(i) => HoconValue::Integer(*i),
            HoconValue::String(s) => HoconValue::String(s.clone()),
            HoconValue::UnquotedString(s) => HoconValue::UnquotedString(s.clone()),
            HoconValue::Boolean(b) => HoconValue::Boolean(*b),
            HoconValue::Concat(vs) => HoconValue::Concat(copy_values(vs)),
            HoconValue::PathSubstitution(b) => HoconValue::PathSubstitution(Box::new((**b).copy())),
            HoconValue::Null => HoconValue::Null,
            HoconValue::BadValue => HoconValue::BadValue,
            HoconValue::EmptyObject => HoconValue::EmptyObject,
            HoconValue::EmptyArray => HoconValue::EmptyArray,
            HoconValue::Included { value, original_path } => HoconValue::Included {
                value: Box::new((**value).copy()),
                original_path: copy_values(original_path),
            },
        }
    }
}

pub proof fn lemma_raw_seq_subrange(a: Seq<HoconValue>, lo: int, hi: int)
    requires
        0 <= lo <= hi <= a.len(),
    ensures
        raw_seq(a.subrange(lo, hi)) == raw_seq(a).subrange(lo, hi),
{
    lemma_raw_seq_len(a);
    lemma_raw_seq_len(a.subrange(lo, hi));
    assert forall|j: int| 0 <= j < hi - lo implies #[trigger] raw_seq(a.subrange(lo, hi))[j] == raw_seq(
        a,
    ).subrange(lo, hi)[j] by {
        lemma_raw_seq_index(a.subrange(lo, hi), j);
        lemma_raw_seq_index(a, lo + j);
    }
    assert(raw_seq(a.subrange(lo, hi)) =~= raw_seq(a).subrange(lo, hi));
}

/// The path that a value names: an unquoted text is split at its dots after
/// trimming (a lone dot names the root), a quoted text is one key, the members
/// of a concatenation name their paths one after the other, and any other value
/// is a one-segment path of itself.
pub open spec fn path_of(v: RawValue) -> Seq<RawValue>
    decreases v,
{
    match v {
        RawValue::Unquoted(s) => if s == seq!['.'] {
            Seq::empty()
        } else {
            split_dots(trim_of(s)).map_values(|p: Seq<char>| RawValue::Quoted(p))
        },
        RawValue::Quoted(s) => seq![RawValue::Quoted(s)],
        RawValue::Concat(vs) => path_of_seq(vs),
        _ => seq![v],
    }
}

pub open spec fn path_of_seq(vs: Seq<RawValue>) -> Seq<RawValue>
    decreases vs,
{
    if vs.len() == 0 {
        Seq::empty()
    } else {
        path_of_seq(vs.drop_last()) + path_of(vs.last())
    }
}

/// The text of a key segment, where it has one.
pub open spec fn segment_text_of(v: RawValue) -> Option<Seq<char>> {
    match v {
        RawValue::Quoted(s) => Some(s),
        RawValue::Null => Some(seq!['n', 'u', 'l', 'l']),
        _ => None,
    }
}

pub open spec fn blank_unquoted(v: RawValue) -> bool {
    v is Unquoted && is_blank(v->Unquoted_0)
}

/// Where the members of a concatenation start once a blank unquoted first
/// member is dropped.
pub open spec fn trim_lo(vs: Seq<RawValue>) -> int {
    if vs.len() > 1 && blank_unquoted(vs[0]) {
        1
    } else {
        0
    }
}

/// Where they end once a blank unquoted last member is dropped.
pub open spec fn trim_hi(vs: Seq<RawValue>) -> int {
    if vs.len() > 0 && blank_unquoted(vs.last()) {
        vs.len() - 1
    } else {
        vs.len() as int
    }
}

/// A sequence of adjacent values shaped as one: the blank unquoted edges are
/// dropped, and a single remaining member stands for itself.
pub open spec fn concat_of(vs: Seq<RawValue>) -> RawValue {
    let t = vs.subrange(trim_lo(vs), trim_hi(vs));
    if t.len() == 1 {
        t[0]
    } else {
        RawValue::Concat(t)
    }
}

fn push_values(out: &mut Vec<HoconValue>, more: Vec<HoconValue>)
    ensures
        raw_seq(final(out)@) == raw_seq(old(out)@) + raw_seq(more@),
{
    let ghost start = out@;
    let mut k: usize = 0;
    while k < more.len()
        invariant
            k <= more.len(),
            raw_seq(out@) == raw_seq(start) + raw_seq(more@.take(k as int)),
        decreases more.len() - k,
    {
        let c = more[k].copy();
        proof {
            lemma_raw_seq_push(out@, c);
            assert(more@.take(k + 1) == more@.take(k as int).push(more@[k as int]));
            lemma_raw_seq_push(more@.take(k as int), more@[k as int]);
        }
        out.push(c);
        k = k + 1;
    }
    proof {
        assert(more@.take(more.len() as int) == more@);
    }
}

impl HoconValue {
    /// The path that this value names.
    pub fn to_path(&self) -> (r: Vec<HoconValue>)
        ensures
            raw_seq(r@) == path_of(self@),
        decreases self,
    {
        match self {
            HoconValue::UnquotedString(s) => {
                let cs = chars_of(s.as_str());
                if cs.len() == 1 && cs[0] == '.' {
                    proof {
                        assert(cs@ =~= seq!['.']);
                    }
                    Vec::new()
                } else {
                    let t = trim(&cs);
                    let parts = split_on_dots(&t);
                    let ghost want = split_dots(trim_of(s@)).map_values(|p: Seq<char>| RawValue::Quoted(p));
                    let mut out: Vec<HoconValue> = Vec::new();
                    let mut k: usize = 0;
                    while k < parts.len()
                        invariant
                            k <= parts.len(),
                            parts@.len() == split_dots(t@).len(),
                            forall|j: int| 0 <= j < parts@.len() ==> (#[trigger] parts@[j])@ == split_dots(t@)[j],
                            t@ == trim_of(s@),
                            want == split_dots(trim_of(s@)).map_values(|p: Seq<char>| RawValue::Quoted(p)),
                            raw_seq(out@) == want.take(k as int),
                        decreases parts.len() - k,
                    {
                        let seg = HoconValue::String(string_of(&parts[k]));
                        proof {
                            lemma_raw_seq_push(out@, seg);
                            assert(want.take(k + 1) =~= want.take(k as int).push(raw_of(seg)));
                        }
                        out.push(seg);
                        k = k + 1;
                    }
                    proof {
                        assert(want.take(k as int) =~= want);
                        assert(!(s@ == seq!['.'])) by {
                            if s@ == seq!['.'] {
                                assert(cs@ =~= seq!['.']);
                            }
                        }
                    }
                    out
                }
            }
            HoconValue::String(s) => {
                let mut out: Vec<HoconValue> = Vec::new();
                let seg = HoconValue::String(s.clone());
                proof {
                    lemma_raw_seq_push(out@, seg);
                }
                out.push(seg);
                proof {
                    assert(raw_seq(Seq::<HoconValue>::empty()) =~= Seq::<RawValue>::empty());
                }
                out
            }
            HoconValue::Concat(vs) => {
                let mut out: Vec<HoconValue> = Vec::new();
                let mut i: usize = 0;
                while i < vs.len()
                    invariant
                        *self == HoconValue::Concat(*vs),
                        i <= vs.len(),
                        raw_seq(out@) == path_of_seq(raw_seq(vs@.take(i as int))),
                    decreases vs.len() - i,
                {
                    proof {
                        let ghost sv = *self;
                        assert(decreases_to!(sv => sv->Concat_0));
                        assert(decreases_to!(sv->Concat_0 => sv->Concat_0[i as int]));
                    }
                    let sub = vs[i].to_path();
                    push_values(&mut out, sub);
                    proof {
                        assert(vs@.take(i + 1) == vs@.take(i as int).push(vs@[i as int]));
                        lemma_raw_seq_push(vs@.take(i as int), vs@[i as int]);
                        let rs = raw_seq(vs@.take(i + 1));
                        assert(rs.drop_last() == raw_seq(vs@.take(i as int)));
                    }
                    i = i + 1;
                }
                proof {
                    assert(vs@.take(vs.len() as int) == vs@);
                }
                out
            }
            _ => {
                let mut out: Vec<HoconValue> = Vec::new();
                let seg = self.copy();
                proof {
                    lemma_raw_seq_push(out@, seg);
                    assert(raw_seq(Seq::<HoconValue>::empty()) =~= Seq::<RawValue>::empty());
                }
                out.push(seg);
                out
            }
        }
    }

    /// The text of this value taken as a key segment.
    pub fn segment_text(&self) -> (r: Option<Vec<char>>)
        ensures
            r matches Some(t) ==> segment_text_of(self@) == Some(t@),
            r is None ==> segment_text_of(self@) is None,
    {
        match self {
            HoconValue::String(s) => Some(chars_of(s.as_str())),
            HoconValue::Null => {
                let mut t: Vec<char> = Vec::new();
                t.push('n');
                t.push('u');
                t.push('l');
                t.push('l');
                proof {
                    assert(t@ =~= seq!['n', 'u', 'l', 'l']);
                }
                Some(t)
            }
            _ => None,
        }
    }

    /// Whether this is an unquoted text made only of whitespace.
    pub fn is_blank_unquoted(&self) -> (r: bool)
        ensures
            r == blank_unquoted(self@),
    {
        match self {
            HoconValue::UnquotedString(s) => blank(&chars_of(s.as_str())),
            _ => false,
        }
    }

    /// Adjacent values read as one: a blank unquoted first or last member is
    /// dropped, and a single remaining member stands alone.
    pub fn maybe_concat(values: Vec<HoconValue>) -> (r: HoconValue)
        ensures
            r@ == concat_of(raw_seq(values@)),
    {
        let n = values.len();
        let lo: usize = if n > 1 && values[0].is_blank_unquoted() {
            1
        } else {
            0
        };
        let hi: usize = if n > 0 && values[n - 1].is_blank_unquoted() {
            n - 1
        } else {
            n
        };
        proof {
            lemma_raw_seq_len(values@);
            if n > 0 {
                lemma_raw_seq_index(values@, 0);
                lemma_raw_seq_index(values@, n - 1);
            }
            lemma_raw_seq_subrange(values@, lo as int, hi as int);
        }
        let mut out: Vec<HoconValue> = Vec::new();
        let mut k: usize = lo;
        while k < hi
            invariant
                lo <= k <= hi <= values.len(),
                out@.len() == k - lo,
                forall|j: int| 0 <= j < k - lo ==> raw_of(#[trigger] out@[j]) == raw_of(values@[lo + j]),
            decreases hi - k,
        {
            let c = values[k].copy();
            out.push(c);
            k = k + 1;
        }
        proof {
            lemma_raw_seq_ext(out@, values@.subrange(lo as int, hi as int));
            lemma_raw_seq_len(out@);
        }
        if out.len() == 1 {
            proof {
                lemma_raw_seq_index(out@, 0);
            }
            out.pop().unwrap()
        } else {
            HoconValue::Concat(out)
        }
    }
}

} // verus!
