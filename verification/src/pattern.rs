//! Extraction patterns: named regular expressions applied to a run's log.
//!
//! The regular-expression engine is the `regex` crate; its compiled programs
//! are opaque here.  A `Pattern` pairs a compiled regular expression with the
//! source text it was compiled from, so contracts can speak of the match
//! result as a function of that source text alone.

use crate::text::{dedup_first, dedup_strings, str_eq};
use vstd::prelude::*;

verus! {

#[verifier::external_type_specification]
#[verifier::external_body]
pub struct ExRegex(regex::Regex);

/// The first capture group of the first match of the regular expression
/// written `pat` against `text`, or nothing when there is no match or the
/// expression has no first group.  The `regex` crate computes it; it depends
/// on the two texts alone.
pub uninterp spec fn capture_of(pat: Seq<char>, text: Seq<char>) -> Option<Seq<char>>;

/// One named extraction pattern of an attribute set.
pub struct Pattern {
    pub name: String,
    source: String,
    regex: regex::Regex,
}

impl Pattern {
    /// The source text the regular expression was compiled from.
    pub closed spec fn src(self) -> Seq<char> {
        self.source@
    }

    /// The pattern's name.
    pub closed spec fn spec_name(self) -> Seq<char> {
        self.name@
    }

    /// Relies on `regex::Regex::new`: a successful result is the compiled
    /// form of exactly the given source text; compilation fails on invalid
    /// syntax or when the compiled program exceeds the default size limit.
    #[verifier::external_body]
    pub fn compile(name: String, source: String) -> (r: Option<Pattern>)
        ensures
            r matches Some(p) ==> p.spec_name() == name@ && p.src() == source@,
    {
        match regex::Regex::new(&source) {
            Ok(regex) => Some(Pattern { name, source, regex }),
            Err(_) => None,
        }
    }

    /// Relies on `regex::Regex::captures` and `regex::Captures::get`: the
    /// first capture group of the first match, a function of the pattern
    /// source and the haystack alone.
    #[verifier::external_body]
    pub(crate) fn capture_first(&self, text: &str) -> (r: Option<String>)
        ensures
            r.deep_view() == capture_of(self.src(), text@),
    {
        self.regex.captures(text).and_then(|c| c.get(1)).map(|m| m.as_str().to_owned())
    }
}

/// A named set of extraction patterns.
pub struct Attribute {
    pub name: String,
    pub patterns: Vec<Pattern>,
}

impl Attribute {
    /// The names of the attribute's patterns, in declaration order.
    pub open spec fn spec_names(self) -> Seq<Seq<char>> {
        Seq::new(self.patterns@.len(), |i: int| self.patterns@[i].spec_name())
    }

    /// The source of the pattern named `n`, if the set holds one; the first
    /// declaration wins.
    pub open spec fn pattern_src(self, n: Seq<char>) -> Option<Seq<char>> {
        if exists|j: int| 0 <= j < self.patterns@.len() && self.patterns@[j].spec_name() == n {
            let j = choose|j: int|
                0 <= j < self.patterns@.len() && self.patterns@[j].spec_name() == n && (forall|
                    k: int,
                | 0 <= k < j ==> self.patterns@[k].spec_name() != n);
            Some(self.patterns@[j].src())
        } else {
            None
        }
    }

    /// Looks up the first pattern with the given name.
    pub fn find_pattern(&self, n: &str) -> (r: Option<&Pattern>)
        ensures
            r matches Some(p) ==> self.pattern_src(n@) == Some(p.src()) && p.spec_name() == n@,
            r is None ==> self.pattern_src(n@) is None,
    {
        let mut i: usize = 0;
        while i < self.patterns.len()
            invariant
                0 <= i <= self.patterns@.len(),
                forall|k: int| 0 <= k < i ==> self.patterns@[k].spec_name() != n@,
            decreases self.patterns@.len() - i,
        {
            if str_eq(self.patterns[i].name.as_str(), n) {
                proof {
                    let j = choose|j: int|
                        0 <= j < self.patterns@.len() && self.patterns@[j].spec_name() == n@ && (
                        forall|k: int| 0 <= k < j ==> self.patterns@[k].spec_name() != n@);
                    assert(self.patterns@[i as int].spec_name() == n@);
                    if j != i {
                        if j < i {
                            assert(self.patterns@[j].spec_name() != n@);
                        } else {
                            assert(self.patterns@[i as int].spec_name() != n@);
                        }
                    }
                }
                return Some(&self.patterns[i]);
            }
            i += 1;
        }
        None
    }
}

/// The union of the pattern names across the attribute sets, first
/// occurrences first.
pub open spec fn union_names(attrs: Seq<Attribute>) -> Seq<Seq<char>> {
    dedup_first(union_names_raw(attrs))
}

/// All pattern names of the attribute sets, concatenated in order.
pub open spec fn union_names_raw(attrs: Seq<Attribute>) -> Seq<Seq<char>>
    decreases attrs.len(),
{
    if attrs.len() == 0 {
        Seq::<Seq<char>>::empty()
    } else {
        union_names_raw(attrs.drop_last()) + attrs.last().spec_names()
    }
}

/// The attribute sets at the selected indices, in selection order.
pub open spec fn chosen_attrs(attrs: Seq<Attribute>, sel: Seq<usize>) -> Seq<Attribute> {
    Seq::new(sel.len(), |i: int| attrs[sel[i] as int])
}

/// Collects the union of the pattern names of the selected attribute sets,
/// keeping first occurrences in order.
pub fn union_pattern_names(attrs: &Vec<Attribute>, selected: &Vec<usize>) -> (r: Vec<String>)
    requires
        forall|i: int| 0 <= i < selected@.len() ==> selected@[i] < attrs@.len(),
    ensures
        r.deep_view() == union_names(chosen_attrs(attrs@, selected@)),
{
    let ghost chosen = chosen_attrs(attrs@, selected@);
    let mut raw: Vec<String> = Vec::new();
    let mut i: usize = 0;
    while i < selected.len()
        invariant
            0 <= i <= selected@.len(),
            forall|k: int| 0 <= k < selected@.len() ==> selected@[k] < attrs@.len(),
            chosen == chosen_attrs(attrs@, selected@),
            raw.deep_view() == union_names_raw(chosen.take(i as int)),
        decreases selected@.len() - i,
    {
        let a = &attrs[selected[i]];
        let ghost before = raw.deep_view();
        let mut j: usize = 0;
        while j < a.patterns.len()
            invariant
                0 <= j <= a.patterns@.len(),
                raw.deep_view() == before + a.spec_names().take(j as int),
            decreases a.patterns@.len() - j,
        {
            let ghost prev = raw.deep_view();
            raw.push(a.patterns[j].name.clone());
            proof {
                assert(raw.deep_view() =~~= prev + seq![a.patterns@[j as int].spec_name()]);
                assert(before + a.spec_names().take(j + 1) =~~= (before + a.spec_names().take(
                    j as int,
                )) + seq![a.spec_names()[j as int]]);
            }
            j += 1;
        }
        proof {
            assert(a.spec_names().take(a.patterns@.len() as int) =~~= a.spec_names());
            assert(chosen.take(i + 1).drop_last() =~~= chosen.take(i as int));
            assert(chosen.take(i + 1).last() == chosen[i as int]);
            assert(chosen[i as int] == attrs@[selected@[i as int] as int]);
        }
        i += 1;
    }
    proof {
        assert(chosen.take(selected@.len() as int) =~~= chosen);
    }
    dedup_strings(&raw)
}

/// A spec-level copy of an optional attribute reference.
pub open spec fn opt_attr(a: Option<&Attribute>) -> Option<Attribute> {
    match a {
        Option::Some(x) => Option::Some(*x),
        Option::None => Option::None,
    }
}

/// The characters of an optional text.
pub open spec fn opt_text(l: Option<&String>) -> Option<Seq<char>> {
    match l {
        Option::Some(s) => Option::Some(s@),
        Option::None => Option::None,
    }
}

/// The value extracted for pattern name `n` by attribute `a` (or no
/// attribute) from log `text`: the first capture of the matching pattern, or
/// the empty string when the attribute is absent, lacks the pattern, or the
/// pattern does not match.
pub open spec fn extracted(a: Option<Attribute>, n: Seq<char>, text: Option<Seq<char>>) -> Seq<
    char,
> {
    if a is Some && text is Some && a.unwrap().pattern_src(n) is Some && capture_of(
        a.unwrap().pattern_src(n).unwrap(),
        text.unwrap(),
    ) is Some {
        capture_of(a.unwrap().pattern_src(n).unwrap(), text.unwrap()).unwrap()
    } else {
        Seq::<char>::empty()
    }
}

/// The extracted value for each name, in order.
pub open spec fn extracted_vals(
    a: Option<Attribute>,
    names: Seq<Seq<char>>,
    text: Option<Seq<char>>,
) -> Seq<Seq<char>> {
    Seq::new(names.len(), |k: int| extracted(a, names[k], text))
}

/// Applies the attribute's patterns to the log, producing one value per
/// pattern name: the first capture of the first match, or the empty string
/// when the run has no attribute, no log, no such pattern, or no match.
pub fn pattern_values(
    names: &Vec<String>,
    attribute: Option<&Attribute>,
    log: Option<&String>,
) -> (r: Vec<String>)
    ensures
        r.deep_view() == extracted_vals(opt_attr(attribute), names.deep_view(), opt_text(log)),
{
    let ghost a = opt_attr(attribute);
    let ghost text = opt_text(log);
    let mut r: Vec<String> = Vec::new();
    let mut k: usize = 0;
    while k < names.len()
        invariant
            0 <= k <= names@.len(),
            a == opt_attr(attribute),
            text == opt_text(log),
            r.deep_view() == extracted_vals(a, names.deep_view(), text).take(k as int),
        decreases names@.len() - k,
    {
        let ghost prev = r.deep_view();
        let cell: String = match (attribute, log) {
            (Some(attr), Some(content)) => {
                match attr.find_pattern(names[k].as_str()) {
                    Some(p) => {
                        match p.capture_first(content.as_str()) {
                            Some(v) => v,
                            None => String::new(),
                        }
                    },
                    None => String::new(),
                }
            },
            _ => String::new(),
        };
        proof {
            assert(names.deep_view()[k as int] == names@[k as int]@);
            assert(cell@ == extracted(a, names.deep_view()[k as int], text));
        }
        r.push(cell);
        proof {
            assert(r.deep_view() =~~= prev + seq![extracted(a, names.deep_view()[k as int], text)]);
            assert(extracted_vals(a, names.deep_view(), text).take(k + 1) =~~= extracted_vals(
                a,
                names.deep_view(),
                text,
            ).take(k as int) + seq![extracted(a, names.deep_view()[k as int], text)]);
        }
        k += 1;
    }
    proof {
        assert(extracted_vals(a, names.deep_view(), text).take(names@.len() as int)
            =~~= extracted_vals(a, names.deep_view(), text));
    }
    r
}

} // verus!
