use vstd::prelude::*;

use crate::strutil::str_eq;
use crate::traces::{trace_contains, trace_set};
use vstd::string::StringExecFns;

verus! {

// The label arithmetic of the query functions `label_join` and
// `label_replace`: both rewrite one metric's label list, the first by
// joining the values of chosen source labels, the second by a regex
// substitution on one label's value. The sample values a metric carries are
// floating point and stay outside the library; these functions take and
// return the labels alone.

/// One label of a metric.
#[derive(Debug)]
pub struct Label {
    pub name: String,
    pub value: String,
}

/// The label rewrites' single error: a pattern that does not compile.
#[derive(Debug, Clone, PartialEq, Eq)]
pub enum LabelError {
    InvalidRegex,
}

/// The reserved label carrying the metric's name.
pub open spec fn metric_name_label() -> Seq<char> {
    "__name__"@
}

/// The values of the labels whose name is in `keep` (the metric-name label
/// never among them), in label order.
pub open spec fn selected_values(ls: Seq<Label>, keep: Set<Seq<char>>) -> Seq<Seq<char>>
    decreases ls.len(),
{
    if ls.len() == 0 {
        Seq::empty()
    } else {
        let rest = selected_values(ls.drop_first(), keep);
        if ls[0].name@ != metric_name_label() && keep.contains(ls[0].name@) {
            seq![ls[0].value@] + rest
        } else {
            rest
        }
    }
}

/// The values joined with the separator between consecutive ones.
pub open spec fn joined_values(vals: Seq<Seq<char>>, sep: Seq<char>) -> Seq<char>
    decreases vals.len(),
{
    if vals.len() == 0 {
        Seq::empty()
    } else if vals.len() == 1 {
        vals[0]
    } else {
        joined_values(vals.drop_last(), sep) + sep + vals.last()
    }
}

/// The value of the first label with the given name, or the empty string.
pub open spec fn label_value(ls: Seq<Label>, name: Seq<char>) -> Seq<char>
    decreases ls.len(),
{
    if ls.len() == 0 {
        Seq::empty()
    } else if ls[0].name@ == name {
        ls[0].value@
    } else {
        label_value(ls.drop_first(), name)
    }
}

/// The labels with the metric-name label dropped, in order.
pub open spec fn without_metric_name(ls: Seq<Label>) -> Seq<Label>
    decreases ls.len(),
{
    if ls.len() == 0 {
        Seq::empty()
    } else {
        let rest = without_metric_name(ls.drop_first());
        if ls[0].name@ == metric_name_label() {
            rest
        } else {
            seq![ls[0]] + rest
        }
    }
}

/// What regex substitution yields: the haystack with the leftmost match of
/// the pattern replaced, or `None` for a pattern that does not compile.
pub uninterp spec fn regex_replaced(
    pattern: Seq<char>,
    haystack: Seq<char>,
    replacement: Seq<char>,
) -> Option<Seq<char>>;

/// Relies on regex's `Regex::new` and `Regex::replace`: replacing the
/// leftmost match of the pattern is a function of pattern, haystack and
/// replacement alone, and fails exactly when the pattern does not compile.
#[verifier::external_body]
fn regex_replace_once(pattern: &str, haystack: &str, replacement: &str) -> (r: Option<String>)
    ensures
        match r {
            Some(s) => regex_replaced(pattern@, haystack@, replacement@) == Some(s@),
            None => regex_replaced(pattern@, haystack@, replacement@) is None,
        },
{
    let re = match regex::Regex::new(pattern) {
        Ok(re) => re,
        Err(_) => return None,
    };
    Some(re.replace(haystack, replacement).into_owned())
}

/// Joins the values of the source labels (the metric-name label excluded)
/// with the separator, and appends the result as a new label named
/// `dest_label`; all existing labels are kept.
pub fn label_join(
    labels: &Vec<Label>,
    dest_label: &str,
    separator: &str,
    source_labels: &Vec<String>,
) -> (r: Vec<Label>)
    ensures
        r@.len() == labels@.len() + 1,
        forall|i: int| 0 <= i < labels@.len() ==> #[trigger] r@[i] == labels@[i],
        r@.last().name@ == dest_label@,
        r@.last().value@ == joined_values(
            selected_values(labels@, trace_set(source_labels@)),
            separator@,
        ),
{
    let ghost keep = trace_set(source_labels@);
    let ghost ls = labels@;
    let mut selected: Vec<String> = Vec::new();
    let mut i: usize = 0;
    proof {
        assert(ls.skip(0) =~= ls);
        assert(selected_values(ls, keep) =~= Seq::<Seq<char>>::empty() + selected_values(
            ls.skip(0),
            keep,
        ));
    }
    while i < labels.len()
        invariant
            i <= ls.len(),
            labels@ == ls,
            keep == trace_set(source_labels@),
            selected_values(ls, keep) == selected@.map_values(|s: String| s@) + selected_values(
                ls.skip(i as int),
                keep,
            ),
        decreases ls.len() - i,
    {
        let ghost svs = selected@.map_values(|s: String| s@);
        proof {
            assert(ls.skip(i as int).drop_first() =~= ls.skip(i as int + 1));
            assert(ls.skip(i as int)[0] == ls[i as int]);
        }
        if !str_eq(labels[i].name.as_str(), "__name__") && trace_contains(
            source_labels,
            labels[i].name.as_str(),
        ) {
            selected.push(labels[i].value.clone());
            proof {
                assert(selected@.map_values(|s: String| s@) =~= svs + seq![ls[i as int].value@]);
                assert(svs + (seq![ls[i as int].value@] + selected_values(
                    ls.skip(i as int + 1),
                    keep,
                )) =~= (svs + seq![ls[i as int].value@]) + selected_values(
                    ls.skip(i as int + 1),
                    keep,
                ));
            }
        }
        i = i + 1;
    }
    proof {
        assert(ls.skip(ls.len() as int) =~= Seq::<Label>::empty());
        assert(selected_values(ls, keep) =~= selected@.map_values(|s: String| s@));
    }
    let ghost vals = selected@.map_values(|s: String| s@);
    let mut joined = String::new();
    let mut k: usize = 0;
    while k < selected.len()
        invariant
            k <= vals.len(),
            selected@.map_values(|s: String| s@) == vals,
            selected@.len() == vals.len(),
            k == 0 ==> joined@ == Seq::<char>::empty(),
            k > 0 ==> joined@ == joined_values(vals.take(k as int), separator@),
        decreases vals.len() - k,
    {
        proof {
            assert(vals.take(k as int + 1).drop_last() =~= vals.take(k as int));
            assert(vals.take(k as int + 1).last() == vals[k as int]);
            assert(vals[k as int] == selected@[k as int]@);
        }
        if k > 0 {
            joined.append(separator);
        }
        joined.append(selected[k].as_str());
        proof {
            assert(vals.take(1) =~= seq![vals[0]]);
        }
        k = k + 1;
    }
    proof {
        assert(vals.take(vals.len() as int) =~= vals);
    }
    let mut r: Vec<Label> = Vec::new();
    let mut j: usize = 0;
    while j < labels.len()
        invariant
            j <= ls.len(),
            labels@ == ls,
            r@.len() == j,
            forall|x: int| 0 <= x < j ==> #[trigger] r@[x] == ls[x],
        decreases ls.len() - j,
    {
        r.push(Label { name: labels[j].name.clone(), value: labels[j].value.clone() });
        j = j + 1;
    }
    r.push(Label { name: dest_label.to_owned(), value: joined });
    r
}

/// Applies the pattern to the source label's value (the empty string when
/// the label is absent), replacing its leftmost match with `replacement`;
/// the rewritten value is appended as a new label named `dest_label` to the
/// labels with the metric-name label dropped. A pattern that does not
/// compile is rejected.
pub fn label_replace(
    labels: &Vec<Label>,
    dest_label: &str,
    replacement: &str,
    source_label: &str,
    regex: &str,
) -> (r: Result<Vec<Label>, LabelError>)
    ensures
        match r {
            Ok(out) => {
                &&& regex_replaced(regex@, label_value(labels@, source_label@), replacement@)
                    matches Some(newv) && out@.last().value@ == newv
                &&& out@.len() == without_metric_name(labels@).len() + 1
                &&& out@.drop_last() == without_metric_name(labels@)
                &&& out@.last().name@ == dest_label@
            },
            Err(e) => {
                &&& e == LabelError::InvalidRegex
                &&& regex_replaced(regex@, label_value(labels@, source_label@), replacement@)
                    is None
            },
        },
{
    let ghost ls = labels@;
    // the source label's current value
    let mut source_value = String::new();
    let mut i: usize = 0;
    proof {
        assert(ls.skip(0) =~= ls);
    }
    let mut found = false;
    while i < labels.len()
        invariant
            i <= ls.len(),
            labels@ == ls,
            !found ==> label_value(ls.skip(i as int), source_label@) == label_value(
                ls,
                source_label@,
            ),
            !found ==> source_value@ == Seq::<char>::empty(),
            found ==> source_value@ == label_value(ls, source_label@),
        decreases ls.len() - i,
    {
        proof {
            assert(ls.skip(i as int).drop_first() =~= ls.skip(i as int + 1));
            assert(ls.skip(i as int)[0] == ls[i as int]);
        }
        if !found && str_eq(labels[i].name.as_str(), source_label) {
            source_value = labels[i].value.clone();
            found = true;
        }
        i = i + 1;
    }
    proof {
        if !found {
            assert(ls.skip(ls.len() as int) =~= Seq::<Label>::empty());
        }
    }
    let replaced = match regex_replace_once(regex, source_value.as_str(), replacement) {
        Some(s) => s,
        None => {
            return Err(LabelError::InvalidRegex);
        }
    };
    let mut out: Vec<Label> = Vec::new();
    let mut j: usize = 0;
    proof {
        assert(without_metric_name(ls) =~= Seq::<Label>::empty() + without_metric_name(
            ls.skip(0),
        ));
    }
    while j < labels.len()
        invariant
            j <= ls.len(),
            labels@ == ls,
            without_metric_name(ls) == out@ + without_metric_name(ls.skip(j as int)),
        decreases ls.len() - j,
    {
        let ghost prefix = out@;
        proof {
            assert(ls.skip(j as int).drop_first() =~= ls.skip(j as int + 1));
            assert(ls.skip(j as int)[0] == ls[j as int]);
        }
        if !str_eq(labels[j].name.as_str(), "__name__") {
            out.push(Label { name: labels[j].name.clone(), value: labels[j].value.clone() });
            proof {
                assert(out@ =~= prefix + seq![ls[j as int]]);
                assert(prefix + (seq![ls[j as int]] + without_metric_name(ls.skip(j as int + 1)))
                    =~= (prefix + seq![ls[j as int]]) + without_metric_name(ls.skip(j as int + 1)));
            }
        }
        j = j + 1;
    }
    proof {
        assert(ls.skip(ls.len() as int) =~= Seq::<Label>::empty());
        assert(without_metric_name(ls) =~= out@);
    }
    let ghost kept = out@;
    out.push(Label { name: dest_label.to_owned(), value: replaced });
    proof {
        assert(out@.drop_last() =~= kept);
    }
    Ok(out)
}

} // verus!
