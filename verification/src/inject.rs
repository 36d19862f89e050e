//! Namespace injection: stamping the resolved namespace into a rendered
//! document, through the literal `${namespace}` marker or by overriding a
//! `namespace:` field the template already declares.

use vstd::prelude::*;
use crate::chars::chars_to_string;
use crate::chars::extend_chars;
use crate::chars::is_space_char;
use crate::chars::space_char;
use crate::chars::str_chars;
use crate::placeholder::lemma_run_len;
use crate::placeholder::lemma_run_len_determined;
use crate::placeholder::run_len;

verus! {

/// Whether `pat` occurs in `t` at position `i`.
pub open spec fn match_at(t: Seq<char>, pat: Seq<char>, i: int) -> bool {
    0 <= i && i + pat.len() <= t.len() && t.subrange(i, i + pat.len() as int) == pat
}

/// Whether `pat` occurs anywhere in `t`.
pub open spec fn contains_sub(t: Seq<char>, pat: Seq<char>) -> bool {
    exists|i: int| match_at(t, pat, i)
}

/// `t` with every occurrence of `pat` replaced by `rep`, scanning left to
/// right over non-overlapping matches; replacements are not scanned again.
pub open spec fn replace_all(t: Seq<char>, pat: Seq<char>, rep: Seq<char>) -> Seq<char>
    decreases t.len(),
{
    if pat.len() == 0 || t.len() < pat.len() {
        t
    } else if t.subrange(0, pat.len() as int) == pat {
        rep + replace_all(t.skip(pat.len() as int), pat, rep)
    } else {
        seq![t[0]] + replace_all(t.skip(1), pat, rep)
    }
}

/// The literal marker replaced by the namespace name.
pub open spec fn ns_marker() -> Seq<char> {
    "${namespace}"@
}

/// The label of a namespace field.
pub open spec fn ns_label() -> Seq<char> {
    "namespace:"@
}

/// The whitespace class, as a predicate value.
pub open spec fn space_pred() -> spec_fn(char) -> bool {
    |c: char| is_space_char(c)
}

/// The non-whitespace class, as a predicate value.
pub open spec fn nonspace_pred() -> spec_fn(char) -> bool {
    |c: char| !is_space_char(c)
}

/// Whether `t` begins with a namespace field: the label `namespace:`,
/// optional whitespace, and at least one non-whitespace character.
pub open spec fn starts_ns_field(t: Seq<char>) -> bool {
    &&& t.len() >= ns_label().len()
    &&& t.subrange(0, ns_label().len() as int) == ns_label()
    &&& ns_label().len() + run_len(t.skip(ns_label().len() as int), space_pred()) < t.len()
}

/// The length of the namespace field `t` begins with: label, whitespace run
/// and value token.
pub open spec fn ns_field_len(t: Seq<char>) -> int {
    let lab = ns_label().len() as int;
    let w = run_len(t.skip(lab), space_pred()) as int;
    lab + w + run_len(t.skip(lab + w), nonspace_pred()) as int
}

/// Whether a namespace field occurs anywhere in `t`.
pub open spec fn has_ns_field(t: Seq<char>) -> bool {
    exists|i: int| 0 <= i < t.len() && starts_ns_field(#[trigger] t.skip(i))
}

proof fn lemma_ns_field_bounds(t: Seq<char>)
    requires
        starts_ns_field(t),
    ensures
        1 <= ns_field_len(t) <= t.len(),
{
    lemma_ns_label_len();
    let lab = ns_label().len() as int;
    let w = run_len(t.skip(lab), space_pred()) as int;
    lemma_run_len(t.skip(lab + w), nonspace_pred());
    assert(t.skip(lab + w).len() == t.len() - lab - w);
}

proof fn lemma_ns_label_len()
    ensures
        ns_label().len() == 10,
{
    reveal_strlit("namespace:");
}

/// `t` with every namespace field rewritten to name `ns`, scanning left to
/// right over non-overlapping fields.
pub open spec fn replace_ns_fields(t: Seq<char>, ns: Seq<char>) -> Seq<char>
    decreases t.len(),
{
    if t.len() == 0 {
        t
    } else if starts_ns_field(t) && 1 <= ns_field_len(t) <= t.len() {
        ("namespace: "@ + ns) + replace_ns_fields(t.skip(ns_field_len(t)), ns)
    } else {
        seq![t[0]] + replace_ns_fields(t.skip(1), ns)
    }
}

/// The injected document and whether the override warning is due: the marker
/// `${namespace}` becomes the namespace name; otherwise a `namespace:` field
/// declared by the original template is overridden, with a warning; otherwise
/// the document is unchanged.
pub open spec fn spec_inject(rendered: Seq<char>, original: Seq<char>, ns: Seq<char>) -> (
    Seq<char>,
    bool,
) {
    if contains_sub(rendered, ns_marker()) {
        (replace_all(rendered, ns_marker(), ns), false)
    } else if contains_sub(original, ns_label()) && has_ns_field(rendered) {
        (replace_ns_fields(rendered, ns), true)
    } else {
        (rendered, false)
    }
}

/// Whether `pat` occurs in `t` at position `i`.
fn match_here(t: &Vec<char>, pat: &Vec<char>, i: usize) -> (b: bool)
    requires
        i <= t@.len(),
    ensures
        b == match_at(t@, pat@, i as int),
{
    let n = t.len();
    if pat.len() > n - i {
        return false;
    }
    let mut k: usize = 0;
    while k < pat.len()
        invariant
            i + pat@.len() <= n,
            n == t@.len(),
            k <= pat@.len(),
            forall|k2: int| 0 <= k2 < k ==> t@[i + k2] == pat@[k2],
        decreases pat@.len() - k,
    {
        if t[i + k] != pat[k] {
            proof {
                if match_at(t@, pat@, i as int) {
                    assert(t@.subrange(i as int, i + pat@.len() as int)[k as int] == t@[i + k]);
                }
            }
            return false;
        }
        k = k + 1;
    }
    proof {
        assert(t@.subrange(i as int, i + pat@.len() as int) =~= pat@);
    }
    true
}

/// Whether `pat` occurs anywhere in `t`.
fn contains_chars(t: &Vec<char>, pat: &Vec<char>) -> (b: bool)
    ensures
        b == contains_sub(t@, pat@),
{
    if pat.len() == 0 {
        proof {
            assert(t@.subrange(0, 0) =~= pat@);
            assert(match_at(t@, pat@, 0));
        }
        return true;
    }
    let mut i: usize = 0;
    while i < t.len()
        invariant
            i <= t@.len(),
            forall|i2: int| 0 <= i2 < i ==> !match_at(t@, pat@, i2),
        decreases t@.len() - i,
    {
        if match_here(t, pat, i) {
            return true;
        }
        i = i + 1;
    }
    proof {
        assert forall|i2: int| !match_at(t@, pat@, i2) by {
            if 0 <= i2 < t@.len() {
            } else {
                assert(pat@.len() >= 1);
            }
        }
    }
    false
}

/// `t` with every occurrence of `pat` replaced by `rep`.
fn replace_chars(t: &Vec<char>, pat: &Vec<char>, rep: &Vec<char>) -> (out: Vec<char>)
    requires
        pat@.len() >= 1,
    ensures
        out@ == replace_all(t@, pat@, rep@),
{
    let mut out: Vec<char> = Vec::new();
    proof {
        assert(t@.skip(0) =~= t@);
        assert(Seq::<char>::empty() + replace_all(t@, pat@, rep@) =~= replace_all(
            t@,
            pat@,
            rep@,
        ));
    }
    let mut i: usize = 0;
    while i < t.len()
        invariant
            i <= t@.len(),
            pat@.len() >= 1,
            out@ + replace_all(t@.skip(i as int), pat@, rep@) == replace_all(t@, pat@, rep@),
        decreases t@.len() - i,
    {
        let ghost s = t@.skip(i as int);
        let ghost out0 = out@;
        if match_here(t, pat, i) {
            extend_chars(&mut out, rep);
            proof {
                assert(s.subrange(0, pat@.len() as int) =~= t@.subrange(
                    i as int,
                    i + pat@.len() as int,
                ));
                assert(s.skip(pat@.len() as int) =~= t@.skip(i + pat@.len()));
                assert(replace_all(s, pat@, rep@) == rep@ + replace_all(
                    t@.skip(i + pat@.len()),
                    pat@,
                    rep@,
                ));
                assert(out0 + (rep@ + replace_all(t@.skip(i + pat@.len()), pat@, rep@)) =~= (out0
                    + rep@) + replace_all(t@.skip(i + pat@.len()), pat@, rep@));
            }
            i = i + pat.len();
        } else {
            out.push(t[i]);
            proof {
                assert(s[0] == t@[i as int]);
                assert(s.skip(1) =~= t@.skip(i + 1 as int));
                if s.len() < pat@.len() {
                    assert(replace_all(s, pat@, rep@) == s);
                    assert(s.skip(1).len() < pat@.len());
                    assert(replace_all(s.skip(1), pat@, rep@) == s.skip(1));
                    assert(s =~= seq![s[0]] + s.skip(1));
                } else {
                    assert(s.subrange(0, pat@.len() as int) =~= t@.subrange(
                        i as int,
                        i + pat@.len() as int,
                    ));
                    assert(s.subrange(0, pat@.len() as int) != pat@);
                }
                assert(replace_all(s, pat@, rep@) == seq![s[0]] + replace_all(
                    s.skip(1),
                    pat@,
                    rep@,
                ));
                assert(out0 + (seq![s[0]] + replace_all(t@.skip(i + 1 as int), pat@, rep@))
                    =~= out0.push(s[0]) + replace_all(t@.skip(i + 1 as int), pat@, rep@));
            }
            i = i + 1;
        }
    }
    proof {
        assert(t@.skip(t@.len() as int) =~= Seq::<char>::empty());
        assert(out@ + Seq::<char>::empty() =~= out@);
    }
    out
}

/// Scans for a namespace field beginning at position `i` of `t`; on a match,
/// returns the position just after its value token.
fn scan_ns_at(t: &Vec<char>, i: usize, lab: &Vec<char>) -> (r: Option<usize>)
    requires
        i < t@.len(),
        lab@ == ns_label(),
    ensures
        match r {
            Option::Some(e) => {
                &&& starts_ns_field(t@.skip(i as int))
                &&& i < e <= t@.len()
                &&& ns_field_len(t@.skip(i as int)) == e - i
            },
            Option::None => !starts_ns_field(t@.skip(i as int)),
        },
{
    let ghost s = t@.skip(i as int);
    if !match_here(t, lab, i) {
        proof {
            if starts_ns_field(s) {
                assert(s.subrange(0, lab@.len() as int) =~= t@.subrange(
                    i as int,
                    i + lab@.len() as int,
                ));
                assert(match_at(t@, lab@, i as int));
            }
        }
        return Option::None;
    }
    let labn = lab.len();
    let n = t.len();
    proof {
        assert(i + labn <= n);
        assert(s.skip(labn as int) =~= t@.skip(i + labn));
        assert(s.subrange(0, labn as int) =~= t@.subrange(i as int, i + labn as int));
    }
    let mut p = i + labn;
    while p < t.len() && space_char(t[p])
        invariant
            i + labn <= p <= t@.len(),
            forall|k: int| i + labn <= k < p ==> is_space_char(#[trigger] t@[k]),
        decreases t@.len() - p,
    {
        p = p + 1;
    }
    proof {
        let w = t@.skip(i + labn);
        assert forall|k: int| 0 <= k < p - (i + labn) implies space_pred()(#[trigger] w[k]) by {
            assert(w[k] == t@[i + labn + k]);
        }
        if p - (i + labn) < w.len() {
            assert(w[p - (i + labn)] == t@[p as int]);
            assert(!space_pred()(w[p - (i + labn)]));
        }
        lemma_run_len_determined(w, space_pred(), p - (i + labn));
    }
    if p >= t.len() {
        return Option::None;
    }
    proof {
        assert(starts_ns_field(s));
        assert(s.skip(labn + (p - i - labn) as int) =~= t@.skip(p as int));
    }
    let mut e = p;
    while e < t.len() && !space_char(t[e])
        invariant
            p <= e <= t@.len(),
            forall|k: int| p <= k < e ==> !is_space_char(#[trigger] t@[k]),
        decreases t@.len() - e,
    {
        e = e + 1;
    }
    proof {
        let w2 = t@.skip(p as int);
        assert forall|k: int| 0 <= k < e - p implies nonspace_pred()(#[trigger] w2[k]) by {
            assert(w2[k] == t@[p + k]);
        }
        if e - p < w2.len() {
            assert(w2[e - p] == t@[e as int]);
            assert(!nonspace_pred()(w2[e - p]));
        }
        lemma_run_len_determined(w2, nonspace_pred(), e - p);
        assert(ns_field_len(s) == e - i);
    }
    Option::Some(e)
}

/// Whether a namespace field occurs anywhere in `t`.
fn contains_ns_field(t: &Vec<char>, lab: &Vec<char>) -> (b: bool)
    requires
        lab@ == ns_label(),
    ensures
        b == has_ns_field(t@),
{
    let mut i: usize = 0;
    while i < t.len()
        invariant
            i <= t@.len(),
            lab@ == ns_label(),
            forall|i2: int| 0 <= i2 < i ==> !starts_ns_field(#[trigger] t@.skip(i2)),
        decreases t@.len() - i,
    {
        if scan_ns_at(t, i, lab).is_some() {
            return true;
        }
        i = i + 1;
    }
    false
}

/// `t` with every namespace field rewritten to name the characters of `nsv`.
fn replace_ns_chars(t: &Vec<char>, nsv: &Vec<char>, lab: &Vec<char>, prefix: &Vec<char>) -> (out:
    Vec<char>)
    requires
        lab@ == ns_label(),
        prefix@ == "namespace: "@,
    ensures
        out@ == replace_ns_fields(t@, nsv@),
{
    let mut out: Vec<char> = Vec::new();
    proof {
        assert(t@.skip(0) =~= t@);
        assert(Seq::<char>::empty() + replace_ns_fields(t@, nsv@) =~= replace_ns_fields(
            t@,
            nsv@,
        ));
    }
    let mut i: usize = 0;
    while i < t.len()
        invariant
            i <= t@.len(),
            lab@ == ns_label(),
            prefix@ == "namespace: "@,
            out@ + replace_ns_fields(t@.skip(i as int), nsv@) == replace_ns_fields(t@, nsv@),
        decreases t@.len() - i,
    {
        let ghost s = t@.skip(i as int);
        let ghost out0 = out@;
        match scan_ns_at(t, i, lab) {
            Option::Some(e) => {
                extend_chars(&mut out, prefix);
                extend_chars(&mut out, nsv);
                proof {
                    lemma_ns_field_bounds(s);
                    assert(s.skip(ns_field_len(s)) =~= t@.skip(e as int));
                    assert(replace_ns_fields(s, nsv@) == ("namespace: "@ + nsv@)
                        + replace_ns_fields(t@.skip(e as int), nsv@));
                    assert(out0 + (("namespace: "@ + nsv@) + replace_ns_fields(
                        t@.skip(e as int),
                        nsv@,
                    )) =~= ((out0 + prefix@) + nsv@) + replace_ns_fields(t@.skip(e as int), nsv@));
                }
                i = e;
            },
            Option::None => {
                out.push(t[i]);
                proof {
                    assert(s[0] == t@[i as int]);
                    assert(s.skip(1) =~= t@.skip(i + 1 as int));
                    assert(replace_ns_fields(s, nsv@) == seq![s[0]] + replace_ns_fields(
                        s.skip(1),
                        nsv@,
                    ));
                    assert(out0 + (seq![s[0]] + replace_ns_fields(t@.skip(i + 1 as int), nsv@))
                        =~= out0.push(s[0]) + replace_ns_fields(t@.skip(i + 1 as int), nsv@));
                }
                i = i + 1;
            },
        }
    }
    proof {
        assert(t@.skip(t@.len() as int) =~= Seq::<char>::empty());
        assert(out@ + Seq::<char>::empty() =~= out@);
    }
    out
}

/// Stamps `namespace` into the rendered document: replaces a literal
/// `${namespace}` marker; else, when the original template declared a
/// `namespace:` field that survives in the rendered text, overrides that
/// field and reports a warning; else leaves the document unchanged. Never
/// fails.
pub fn inject_namespace(rendered: &str, original: &str, namespace: &str) -> (res: (String, bool))
    ensures
        (res.0@, res.1) == spec_inject(rendered@, original@, namespace@),
{
    let r = str_chars(rendered);
    let marker = str_chars("${namespace}");
    proof {
        assert(marker@ == ns_marker());
    }
    if contains_chars(&r, &marker) {
        let nsv = str_chars(namespace);
        proof {
            reveal_strlit("${namespace}");
        }
        let out = replace_chars(&r, &marker, &nsv);
        (chars_to_string(&out), false)
    } else {
        let orig = str_chars(original);
        let lab = str_chars("namespace:");
        proof {
            assert(lab@ == ns_label());
        }
        if contains_chars(&orig, &lab) && contains_ns_field(&r, &lab) {
            let nsv = str_chars(namespace);
            let prefix = str_chars("namespace: ");
            let out = replace_ns_chars(&r, &nsv, &lab, &prefix);
            (chars_to_string(&out), true)
        } else {
            (chars_to_string(&r), false)
        }
    }
}

proof fn lemma_replace_ns_contains(t: Seq<char>, ns: Seq<char>)
    requires
        has_ns_field(t),
    ensures
        contains_sub(replace_ns_fields(t, ns), "namespace: "@ + ns),
    decreases t.len(),
{
    let pat = "namespace: "@ + ns;
    if starts_ns_field(t) {
        lemma_ns_field_bounds(t);
        let r = replace_ns_fields(t, ns);
        assert(r == pat + replace_ns_fields(t.skip(ns_field_len(t)), ns));
        assert(r.subrange(0, pat.len() as int) =~= pat);
        assert(match_at(r, pat, 0));
    } else {
        let i = choose|i: int| 0 <= i < t.len() && starts_ns_field(#[trigger] t.skip(i));
        assert(t.skip(0) =~= t);
        assert(i >= 1);
        assert(t.skip(1).skip(i - 1) =~= t.skip(i));
        assert(starts_ns_field(t.skip(1).skip(i - 1)));
        assert(has_ns_field(t.skip(1)));
        lemma_replace_ns_contains(t.skip(1), ns);
        let r1 = replace_ns_fields(t.skip(1), ns);
        let w = choose|w: int| match_at(r1, pat, w);
        let r = replace_ns_fields(t, ns);
        assert(r == seq![t[0]] + r1);
        assert(r.subrange(w + 1, w + 1 + pat.len() as int) =~= r1.subrange(
            w,
            w + pat.len() as int,
        ));
        assert(match_at(r, pat, w + 1));
    }
}

/// Law: namespace injection never fails, and when the `${namespace}` marker
/// is absent, the original template declares a `namespace:` field and the
/// rendered text still carries one, the injected document contains
/// `namespace: <ns>` and the override warning is reported.
pub proof fn lemma_inject_overrides(r: Seq<char>, orig: Seq<char>, ns: Seq<char>)
    requires
        !contains_sub(r, ns_marker()),
        contains_sub(orig, ns_label()),
        has_ns_field(r),
    ensures
        contains_sub(spec_inject(r, orig, ns).0, "namespace: "@ + ns),
        spec_inject(r, orig, ns).1 == true,
{
    lemma_replace_ns_contains(r, ns);
}

} // verus!
