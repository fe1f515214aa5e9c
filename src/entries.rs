use vstd::prelude::*;

use crate::config::{HoconLoaderConfig, MAX_INCLUDE_DEPTH};
use crate::text::{chars_of, split_dots, split_on_dots, string_of};
use crate::value::{copy_values, lemma_raw_seq_push, raw_of, raw_seq, HoconValue, RawValue};

verus! {

/// A path and the value assigned there.
pub type Entry = (Vec<HoconValue>, HoconValue);

/// The model of an entry.
pub type RawEntry = (Seq<RawValue>, RawValue);

pub open spec fn entry_view(e: Entry) -> RawEntry {
    (raw_seq(e.0@), raw_of(e.1))
}

pub open spec fn entries_view(es: Seq<Entry>) -> Seq<RawEntry> {
    es.map_values(|e: Entry| entry_view(e))
}

/// An ordered list of assignments; a later one at an equal path wins.
#[derive(Debug, PartialEq)]
pub struct HoconInternal {
    pub internal: Vec<Entry>,
}

impl View for HoconInternal {
    type V = Seq<RawEntry>;

    open spec fn view(&self) -> Seq<RawEntry> {
        entries_view(self.internal@)
    }
}

/// The entries with `prefix` put before each path.
pub open spec fn prefixed(prefix: Seq<RawValue>, es: Seq<RawEntry>) -> Seq<RawEntry> {
    es.map_values(|e: RawEntry| (prefix + e.0, e.1))
}

/// The entries of the elements of an array, each under its index.
pub open spec fn array_entries(elems: Seq<Seq<RawEntry>>) -> Seq<RawEntry>
    decreases elems.len(),
{
    if elems.len() == 0 {
        Seq::empty()
    } else {
        array_entries(elems.drop_last()) + prefixed(
            seq![RawValue::Integer((elems.len() - 1) as i64)],
            elems.last(),
        )
    }
}

/// The entries of a property map: each key split at its dots, each value a
/// quoted text.
pub open spec fn property_entries(props: Seq<(String, String)>) -> Seq<RawEntry> {
    props.map_values(
        |p: (String, String)|
            (
                split_dots(p.0@).map_values(|s: Seq<char>| RawValue::Quoted(s)),
                RawValue::Quoted(p.1@),
            ),
    )
}

/// The single entry that stands for an include that could not be read.
pub open spec fn failed_include(file_path: Seq<char>) -> Seq<RawEntry> {
    seq![(seq![RawValue::Quoted(file_path)], RawValue::Bad)]
}

/// The entries of an included file, each value marked with its own path.
pub open spec fn included_entries(es: Seq<RawEntry>) -> Seq<RawEntry> {
    es.map_values(|e: RawEntry| (e.0, RawValue::Included(Box::new(e.1), e.0)))
}

/// What an include yields.
pub open spec fn include_entries(
    file_path: Seq<char>,
    may_include: bool,
    loaded: Option<Seq<RawEntry>>,
) -> Seq<RawEntry> {
    if !may_include || loaded is None {
        failed_include(file_path)
    } else {
        included_entries(loaded->0)
    }
}

pub proof fn lemma_entries_view_push(es: Seq<Entry>, e: Entry)
    ensures
        entries_view(es.push(e)) == entries_view(es).push(entry_view(e)),
{
    assert(entries_view(es.push(e)) =~= entries_view(es).push(entry_view(e)));
}

fn copy_entry(e: &Entry) -> (r: Entry)
    ensures
        entry_view(r) == entry_view(*e),
{
    (copy_values(&e.0), e.1.copy())
}

fn append_entries(out: &mut Vec<Entry>, es: &Vec<Entry>)
    ensures
        entries_view(final(out)@) == entries_view(old(out)@) + entries_view(es@),
{
    let ghost start = out@;
    let mut k: usize = 0;
    while k < es.len()
        invariant
            k <= es.len(),
            entries_view(out@) == entries_view(start) + entries_view(es@.take(k as int)),
        decreases es.len() - k,
    {
        let e = copy_entry(&es[k]);
        proof {
            lemma_entries_view_push(out@, e);
            assert(es@.take(k + 1) == es@.take(k as int).push(es@[k as int]));
            lemma_entries_view_push(es@.take(k as int), es@[k as int]);
        }
        out.push(e);
        k = k + 1;
    }
    proof {
        assert(es@.take(es.len() as int) == es@);
    }
}

/// The values `prefix` followed by those of `rest`, each copied.
fn joined_path(prefix: &Vec<HoconValue>, rest: &Vec<HoconValue>) -> (r: Vec<HoconValue>)
    ensures
        raw_seq(r@) == raw_seq(prefix@) + raw_seq(rest@),
{
    let mut out = copy_values(prefix);
    let mut k: usize = 0;
    let ghost start = out@;
    while k < rest.len()
        invariant
            k <= rest.len(),
            raw_seq(start) == raw_seq(prefix@),
            raw_seq(out@) == raw_seq(start) + raw_seq(rest@.take(k as int)),
        decreases rest.len() - k,
    {
        let c = rest[k].copy();
        proof {
            lemma_raw_seq_push(out@, c);
            assert(rest@.take(k + 1) == rest@.take(k as int).push(rest@[k as int]));
            lemma_raw_seq_push(rest@.take(k as int), rest@[k as int]);
        }
        out.push(c);
        k = k + 1;
    }
    proof {
        assert(rest@.take(rest.len() as int) == rest@);
    }
    out
}

impl HoconInternal {
    /// No entries.
    pub fn empty() -> (r: Self)
        ensures
            r@ == Seq::<RawEntry>::empty(),
    {
        let r = Self { internal: Vec::new() };
        proof {
            assert(r@ =~= Seq::<RawEntry>::empty());
        }
        r
    }

    /// The entries of `self` followed by those of `other`.
    pub fn add(&self, other: HoconInternal) -> (r: Self)
        ensures
            r@ == self@ + other@,
    {
        let mut elems: Vec<Entry> = Vec::new();
        proof {
            assert(entries_view(elems@) =~= Seq::<RawEntry>::empty());
        }
        append_entries(&mut elems, &self.internal);
        append_entries(&mut elems, &other.internal);
        proof {
            assert(Seq::<RawEntry>::empty() + self@ == self@);
        }
        Self { internal: elems }
    }

    /// The entries of a map from dotted keys to texts, in the order given.
    pub fn from_properties(properties: Vec<(String, String)>) -> (r: Self)
        ensures
            r@ == property_entries(properties@),
    {
        let mut out: Vec<Entry> = Vec::new();
        let mut k: usize = 0;
        while k < properties.len()
            invariant
                k <= properties.len(),
                entries_view(out@) == property_entries(properties@.take(k as int)),
            decreases properties.len() - k,
        {
            let parts = split_on_dots(&chars_of(properties[k].0.as_str()));
            let ghost want = split_dots(properties@[k as int].0@).map_values(
                |s: Seq<char>| RawValue::Quoted(s),
            );
            let mut path: Vec<HoconValue> = Vec::new();
            let mut j: usize = 0;
            while j < parts.len()
                invariant
                    j <= parts.len(),
                    parts@.len() == split_dots(properties@[k as int].0@).len(),
                    forall|m: int|
                        0 <= m < parts@.len() ==> (#[trigger] parts@[m])@ == split_dots(
                            properties@[k as int].0@,
                        )[m],
                    want == split_dots(properties@[k as int].0@).map_values(
                        |s: Seq<char>| RawValue::Quoted(s),
                    ),
                    raw_seq(path@) == want.take(j as int),
                decreases parts.len() - j,
            {
                let seg = HoconValue::String(string_of(&parts[j]));
                proof {
                    lemma_raw_seq_push(path@, seg);
                    assert(want.take(j + 1) =~= want.take(j as int).push(raw_of(seg)));
                }
                path.push(seg);
                j = j + 1;
            }
            let e: Entry = (path, HoconValue::String(properties[k].1.clone()));
            proof {
                assert(want.take(j as int) =~= want);
                lemma_entries_view_push(out@, e);
                assert(property_entries(properties@.take(k + 1)) =~= property_entries(
                    properties@.take(k as int),
                ).push(entry_view(e)));
            }
            out.push(e);
            k = k + 1;
        }
        proof {
            assert(properties@.take(properties.len() as int) == properties@);
        }
        Self { internal: out }
    }

    /// One entry: the value at the root.
    pub fn from_value(v: HoconValue) -> (r: Self)
        ensures
            r@ == seq![(Seq::<RawValue>::empty(), v@)],
    {
        let e: Entry = (Vec::new(), v);
        let mut out: Vec<Entry> = Vec::new();
        proof {
            lemma_entries_view_push(out@, e);
            assert(raw_seq(Seq::<HoconValue>::empty()) =~= Seq::<RawValue>::empty());
            assert(entries_view(Seq::<Entry>::empty()) =~= Seq::<RawEntry>::empty());
        }
        out.push(e);
        Self { internal: out }
    }

    /// The members of an object; an object without members is one entry that
    /// holds the empty object.
    pub fn from_object(h: Vec<Entry>) -> (r: Self)
        ensures
            h@.len() == 0 ==> r@ == seq![(Seq::<RawValue>::empty(), RawValue::EmptyObject)],
            h@.len() > 0 ==> r@ == entries_view(h@),
    {
        if h.len() == 0 {
            Self::from_value(HoconValue::EmptyObject)
        } else {
            Self { internal: h }
        }
    }

    /// The entries with `p` put before each path.
    pub fn add_to_path(self, p: Vec<HoconValue>) -> (r: Self)
        ensures
            r@ == prefixed(raw_seq(p@), self@),
    {
        let mut out: Vec<Entry> = Vec::new();
        let mut k: usize = 0;
        while k < self.internal.len()
            invariant
                k <= self.internal.len(),
                entries_view(out@) == prefixed(raw_seq(p@), entries_view(self.internal@.take(k as int))),
            decreases self.internal.len() - k,
        {
            let e: Entry = (joined_path(&p, &self.internal[k].0), self.internal[k].1.copy());
            proof {
                lemma_entries_view_push(out@, e);
                lemma_entries_view_push(self.internal@.take(k as int), self.internal@[k as int]);
                assert(self.internal@.take(k + 1) == self.internal@.take(k as int).push(
                    self.internal@[k as int],
                ));
                assert(prefixed(raw_seq(p@), entries_view(self.internal@.take(k + 1))) =~= prefixed(
                    raw_seq(p@),
                    entries_view(self.internal@.take(k as int)),
                ).push(entry_view(e)));
            }
            out.push(e);
            k = k + 1;
        }
        proof {
            assert(self.internal@.take(self.internal.len() as int) == self.internal@);
        }
        Self { internal: out }
    }

    /// The elements of an array, each under its index; an array without
    /// elements is one entry that holds the empty array.
    pub fn from_array(a: Vec<HoconInternal>) -> (r: Self)
        requires
            a.len() <= i64::MAX,
        ensures
            a@.len() == 0 ==> r@ == seq![(Seq::<RawValue>::empty(), RawValue::EmptyArray)],
            a@.len() > 0 ==> r@ == array_entries(a@.map_values(|e: HoconInternal| e@)),
    {
        if a.len() == 0 {
            return Self::from_value(HoconValue::EmptyArray);
        }
        let ghost elems = a@.map_values(|e: HoconInternal| e@);
        let mut out = Self::empty();
        let mut k: usize = 0;
        while k < a.len()
            invariant
                k <= a.len() <= i64::MAX,
                elems == a@.map_values(|e: HoconInternal| e@),
                out@ == array_entries(elems.take(k as int)),
            decreases a.len() - k,
        {
            let mut index: Vec<HoconValue> = Vec::new();
            index.push(HoconValue::Integer(k as i64));
            let elem = Self::empty();
            let part = a[k].add(elem).add_to_path(index);
            proof {
                assert(raw_seq(index@) =~= seq![RawValue::Integer(k as i64)]) by {
                    lemma_raw_seq_push(Seq::<HoconValue>::empty(), HoconValue::Integer(k as i64));
                    assert(index@ =~= Seq::<HoconValue>::empty().push(HoconValue::Integer(k as i64)));
                    assert(raw_seq(Seq::<HoconValue>::empty()) =~= Seq::<RawValue>::empty());
                }
                assert(a[k as int]@ + elem@ =~= a[k as int]@);
                assert(elems.take(k + 1).drop_last() =~= elems.take(k as int));
            }
            out = out.add(part);
            k = k + 1;
        }
        proof {
            assert(elems.take(a.len() as int) =~= elems);
        }
        out
    }

    /// What an include yields: the entries read from the file, each value
    /// marked with its own path; or, where the configuration refuses the include
    /// or nothing could be read, one entry that holds the bad value under the
    /// file's name.
    pub fn from_include(file_path: &str, config: &HoconLoaderConfig, loaded: Option<HoconInternal>) -> (r: Self)
        ensures
            r@ == include_entries(
                file_path@,
                config.include_depth <= MAX_INCLUDE_DEPTH && config.file_meta is Some,
                match loaded { Some(l) => Some(l@), None => None },
            ),
    {
        if !config.may_include() || loaded.is_none() {
            let mut path: Vec<HoconValue> = Vec::new();
            let seg = HoconValue::String(file_path.to_string());
            proof {
                lemma_raw_seq_push(path@, seg);
                assert(raw_seq(Seq::<HoconValue>::empty()) =~= Seq::<RawValue>::empty());
            }
            path.push(seg);
            let mut out: Vec<Entry> = Vec::new();
            let e: Entry = (path, HoconValue::BadValue);
            proof {
                lemma_entries_view_push(out@, e);
                assert(entries_view(Seq::<Entry>::empty()) =~= Seq::<RawEntry>::empty());
            }
            out.push(e);
            return Self { internal: out };
        }
        let included = loaded.unwrap();
        let mut out: Vec<Entry> = Vec::new();
        let mut k: usize = 0;
        while k < included.internal.len()
            invariant
                k <= included.internal.len(),
                entries_view(out@) == included_entries(entries_view(included.internal@.take(k as int))),
            decreases included.internal.len() - k,
        {
            let path = copy_values(&included.internal[k].0);
            let original_path = copy_values(&included.internal[k].0);
            let value = included.internal[k].1.copy();
            let e: Entry = (path, HoconValue::Included { value: Box::new(value), original_path });
            proof {
                lemma_entries_view_push(out@, e);
                lemma_entries_view_push(included.internal@.take(k as int), included.internal@[k as int]);
                assert(included.internal@.take(k + 1) == included.internal@.take(k as int).push(
                    included.internal@[k as int],
                ));
                assert(included_entries(entries_view(included.internal@.take(k + 1))) =~= included_entries(
                    entries_view(included.internal@.take(k as int)),
                ).push(entry_view(e)));
            }
            out.push(e);
            k = k + 1;
        }
        proof {
            assert(included.internal@.take(included.internal.len() as int) == included.internal@);
        }
        Self { internal: out }
    }

    /// What the include yields, followed by the entries of `self`, which is
    /// left empty.
    pub fn add_include(&mut self, file_path: &str, config: &HoconLoaderConfig, loaded: Option<HoconInternal>) -> (r: Self)
        ensures
            r@ == include_entries(
                file_path@,
                config.include_depth <= MAX_INCLUDE_DEPTH && config.file_meta is Some,
                match loaded { Some(l) => Some(l@), None => None },
            ) + old(self)@,
            final(self)@ == Seq::<RawEntry>::empty(),
    {
        let mut included = Self::from_include(file_path, config, loaded);
        append_entries(&mut included.internal, &self.internal);
        self.internal = Vec::new();
        proof {
            assert(entries_view(self.internal@) =~= Seq::<RawEntry>::empty());
        }
        included
    }
}

} // verus!
