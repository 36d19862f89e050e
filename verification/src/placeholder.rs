//! The `${identifier}` placeholder grammar and single-pass rendering.
//!
//! A placeholder is `$`, `{`, one or more word characters, `}`. Rendering
//! walks the text once, left to right: each placeholder whose identifier is
//! bound is replaced by its value, each other placeholder is kept verbatim,
//! and substituted values are never scanned again.

use vstd::prelude::*;
use crate::chars::chars_to_string;
use crate::chars::copy_range;
use crate::chars::extend_chars;
use crate::chars::has_str;
use crate::chars::is_word_char;
use crate::chars::str_chars;
use crate::chars::vec_contains_str;
use crate::chars::word_char;
use crate::vars::VarMap;

verus! {

/// The number of leading characters of `t` satisfying `p`.
pub open spec fn run_len(t: Seq<char>, p: spec_fn(char) -> bool) -> nat
    decreases t.len(),
{
    if t.len() > 0 && p(t[0]) {
        (1 + run_len(t.drop_first(), p)) as nat
    } else {
        0
    }
}

pub proof fn lemma_run_len(t: Seq<char>, p: spec_fn(char) -> bool)
    ensures
        run_len(t, p) <= t.len(),
        forall|k: int| 0 <= k < run_len(t, p) ==> p(#[trigger] t[k]),
        run_len(t, p) < t.len() ==> !p(t[run_len(t, p) as int]),
    decreases t.len(),
{
    if t.len() > 0 && p(t[0]) {
        lemma_run_len(t.drop_first(), p);
        assert forall|k: int| 0 <= k < run_len(t, p) implies p(#[trigger] t[k]) by {
            if k > 0 {
                assert(t[k] == t.drop_first()[k - 1]);
            }
        }
        if run_len(t, p) < t.len() {
            assert(t[run_len(t, p) as int] == t.drop_first()[run_len(t.drop_first(), p) as int]);
        }
    }
}

pub proof fn lemma_run_len_determined(t: Seq<char>, p: spec_fn(char) -> bool, n: int)
    requires
        0 <= n <= t.len(),
        forall|k: int| 0 <= k < n ==> p(#[trigger] t[k]),
        n < t.len() ==> !p(t[n]),
    ensures
        run_len(t, p) == n,
    decreases t.len(),
{
    if n == 0 {
    } else {
        assert(p(t[0]));
        assert forall|k: int| 0 <= k < n - 1 implies p(#[trigger] t.drop_first()[k]) by {
            assert(t.drop_first()[k] == t[k + 1]);
        }
        if n - 1 < t.drop_first().len() {
            assert(t.drop_first()[n - 1] == t[n]);
        }
        lemma_run_len_determined(t.drop_first(), p, n - 1);
    }
}

/// The word-character class, as a predicate value.
pub open spec fn word_pred() -> spec_fn(char) -> bool {
    |c: char| is_word_char(c)
}

/// The length of the leading run of word characters.
pub open spec fn word_run(t: Seq<char>) -> nat {
    run_len(t, word_pred())
}

/// Whether `t` begins with a placeholder: `$`, `{`, a non-empty run of word
/// characters, `}`.
pub open spec fn starts_placeholder(t: Seq<char>) -> bool {
    &&& t.len() >= 2
    &&& t[0] == '$'
    &&& t[1] == '{'
    &&& word_run(t.skip(2)) >= 1
    &&& 2 + word_run(t.skip(2)) < t.len()
    &&& t[2 + word_run(t.skip(2)) as int] == '}'
}

/// The identifier of the placeholder `t` begins with.
pub open spec fn head_ident(t: Seq<char>) -> Seq<char> {
    t.subrange(2, 2 + word_run(t.skip(2)) as int)
}

/// The length of the placeholder `t` begins with, `}` included.
pub open spec fn head_len(t: Seq<char>) -> int {
    3 + word_run(t.skip(2)) as int
}

/// The text after one left-to-right substitution pass: each placeholder whose
/// identifier is bound in `m` becomes its value, each other placeholder stays
/// verbatim, and values that were substituted in are not scanned again.
pub open spec fn spec_render(t: Seq<char>, m: Map<Seq<char>, Seq<char>>) -> Seq<char>
    decreases t.len(),
{
    if t.len() == 0 {
        Seq::empty()
    } else if starts_placeholder(t) {
        let rest = spec_render(t.skip(head_len(t)), m);
        if m.dom().contains(head_ident(t)) {
            m[head_ident(t)] + rest
        } else {
            t.subrange(0, head_len(t)) + rest
        }
    } else {
        seq![t[0]] + spec_render(t.skip(1), m)
    }
}

/// The set of identifiers of the placeholders found by one left-to-right scan
/// of `t`.
pub open spec fn spec_placeholders(t: Seq<char>) -> Set<Seq<char>>
    decreases t.len(),
{
    if t.len() == 0 {
        Set::empty()
    } else if starts_placeholder(t) {
        spec_placeholders(t.skip(head_len(t))).insert(head_ident(t))
    } else {
        spec_placeholders(t.skip(1))
    }
}

/// Whether a placeholder occurs anywhere in `t`.
pub open spec fn has_placeholder(t: Seq<char>) -> bool {
    exists|i: int| 0 <= i < t.len() && starts_placeholder(t.skip(i))
}

/// Law: a text in which no placeholder occurs renders to itself, whatever the
/// variables are.
pub proof fn lemma_render_no_placeholders(t: Seq<char>, m: Map<Seq<char>, Seq<char>>)
    requires
        !has_placeholder(t),
    ensures
        spec_render(t, m) == t,
    decreases t.len(),
{
    if t.len() == 0 {
        assert(spec_render(t, m) =~= t);
    } else {
        assert(t.skip(0) =~= t);
        assert(!starts_placeholder(t.skip(0)));
        assert forall|i: int| 0 <= i < t.skip(1).len() implies !starts_placeholder(
            #[trigger] t.skip(1).skip(i),
        ) by {
            assert(t.skip(1).skip(i) =~= t.skip(i + 1));
            assert(!starts_placeholder(t.skip(i + 1)));
        }
        lemma_render_no_placeholders(t.skip(1), m);
        assert(seq![t[0]] + t.skip(1) =~= t);
    }
}

/// Law: rendering is one pass and never recurses — a placeholder whose
/// identifier is bound becomes exactly the bound value, even when that value
/// itself contains `${...}` syntax; nothing substituted is scanned again.
pub proof fn lemma_render_single_pass(id: Seq<char>, m: Map<Seq<char>, Seq<char>>)
    requires
        id.len() >= 1,
        forall|k: int| 0 <= k < id.len() ==> is_word_char(#[trigger] id[k]),
        m.dom().contains(id),
    ensures
        spec_render(seq!['$', '{'] + id + seq!['}'], m) == m[id],
{
    let t = seq!['$', '{'] + id + seq!['}'];
    assert(t.len() == id.len() + 3);
    assert(t.skip(2) =~= id + seq!['}']);
    assert forall|k: int| 0 <= k < id.len() implies word_pred()(#[trigger] t.skip(2)[k]) by {
        assert(t.skip(2)[k] == id[k]);
    }
    assert(t.skip(2)[id.len() as int] == '}');
    assert(!word_pred()(t.skip(2)[id.len() as int]));
    lemma_run_len_determined(t.skip(2), word_pred(), id.len() as int);
    assert(t[0] == '$');
    assert(t[1] == '{');
    assert(t[2 + word_run(t.skip(2)) as int] == '}');
    assert(starts_placeholder(t));
    assert(head_ident(t) =~= id);
    assert(t.skip(head_len(t)) =~= Seq::<char>::empty());
    assert(spec_render(Seq::<char>::empty(), m) == Seq::<char>::empty());
    assert(spec_render(t, m) == m[id] + spec_render(t.skip(head_len(t)), m));
    assert(m[id] + Seq::<char>::empty() =~= m[id]);
}

/// Scans for a placeholder beginning at position `i` of `t`; on a match,
/// returns the position of its closing `}`.
fn scan_at(t: &Vec<char>, i: usize) -> (r: Option<usize>)
    requires
        i < t@.len(),
    ensures
        match r {
            Option::Some(j) => {
                &&& starts_placeholder(t@.skip(i as int))
                &&& i + 2 <= j < t@.len()
                &&& head_ident(t@.skip(i as int)) == t@.subrange(i + 2 as int, j as int)
                &&& head_len(t@.skip(i as int)) == j + 1 - i
            },
            Option::None => !starts_placeholder(t@.skip(i as int)),
        },
{
    let ghost s = t@.skip(i as int);
    proof {
        assert(s.len() == t@.len() - i);
        assert(s[0] == t@[i as int]);
    }
    let n = t.len();
    if t[i] != '$' {
        return Option::None;
    }
    if n - i < 2 {
        return Option::None;
    }
    proof {
        assert(s[1] == t@[i + 1 as int]);
    }
    if t[i + 1] != '{' {
        return Option::None;
    }
    proof {
        assert(s.skip(2) =~= t@.skip(i + 2 as int));
    }
    let mut j = i + 2;
    while j < t.len() && word_char(t[j])
        invariant
            i + 2 <= j <= t@.len(),
            forall|k: int| i + 2 <= k < j ==> is_word_char(#[trigger] t@[k]),
        decreases t@.len() - j,
    {
        j = j + 1;
    }
    proof {
        let w = t@.skip(i + 2 as int);
        assert forall|k: int| 0 <= k < j - (i + 2) implies word_pred()(#[trigger] w[k]) by {
            assert(w[k] == t@[i + 2 + k]);
        }
        if j - (i + 2) < w.len() {
            assert(w[j - (i + 2)] == t@[j as int]);
            assert(!word_pred()(w[j - (i + 2)]));
        }
        lemma_run_len_determined(w, word_pred(), j - (i + 2));
        assert(word_run(s.skip(2)) == j - (i + 2));
    }
    if j == i + 2 {
        return Option::None;
    }
    if j >= t.len() {
        return Option::None;
    }
    if t[j] != '}' {
        proof {
            assert(s[2 + word_run(s.skip(2)) as int] == t@[j as int]);
        }
        return Option::None;
    }
    proof {
        assert(s[0] == t@[i as int]);
        assert(s[1] == t@[i + 1 as int]);
        assert(s[2 + word_run(s.skip(2)) as int] == t@[j as int]);
        assert(starts_placeholder(s));
        assert(head_ident(s) =~= t@.subrange(i + 2 as int, j as int));
    }
    Option::Some(j)
}

/// Renders `template` by one substitution pass over `vars`: bound
/// placeholders become their values, unbound ones stay verbatim.
pub fn render_template(template: &str, vars: &VarMap) -> (out: String)
    ensures
        out@ == spec_render(template@, vars@),
{
    let t = str_chars(template);
    let mut out: Vec<char> = Vec::new();
    proof {
        assert(t@.skip(0) =~= t@);
        assert(Seq::<char>::empty() + spec_render(t@, vars@) =~= spec_render(t@, vars@));
    }
    let mut i: usize = 0;
    while i < t.len()
        invariant
            i <= t@.len(),
            t@ == template@,
            out@ + spec_render(t@.skip(i as int), vars@) == spec_render(t@, vars@),
        decreases t@.len() - i,
    {
        let ghost s = t@.skip(i as int);
        let ghost out0 = out@;
        match scan_at(&t, i) {
            Option::Some(j) => {
                let id = copy_range(&t, i + 2, j);
                proof {
                    assert(id@ == head_ident(s));
                    assert(s.skip(head_len(s)) =~= t@.skip(j + 1 as int));
                }
                match vars.get_chars(&id) {
                    Option::Some(v) => {
                        extend_chars(&mut out, v);
                        proof {
                            assert(spec_render(s, vars@) == vars@[id@] + spec_render(
                                t@.skip(j + 1 as int),
                                vars@,
                            ));
                            assert(out0 + (vars@[id@] + spec_render(t@.skip(j + 1 as int), vars@))
                                =~= (out0 + vars@[id@]) + spec_render(t@.skip(j + 1 as int), vars@));
                        }
                    },
                    Option::None => {
                        let lit = copy_range(&t, i, j + 1);
                        extend_chars(&mut out, &lit);
                        proof {
                            assert(lit@ =~= s.subrange(0, head_len(s)));
                            assert(spec_render(s, vars@) == s.subrange(0, head_len(s))
                                + spec_render(t@.skip(j + 1 as int), vars@));
                            assert(out0 + (s.subrange(0, head_len(s)) + spec_render(
                                t@.skip(j + 1 as int),
                                vars@,
                            )) =~= (out0 + s.subrange(0, head_len(s))) + spec_render(
                                t@.skip(j + 1 as int),
                                vars@,
                            ));
                        }
                    },
                }
                i = j + 1;
            },
            Option::None => {
                out.push(t[i]);
                proof {
                    assert(s[0] == t@[i as int]);
                    assert(s.skip(1) =~= t@.skip(i + 1 as int));
                    assert(spec_render(s, vars@) == seq![t@[i as int]] + spec_render(
                        t@.skip(i + 1 as int),
                        vars@,
                    ));
                    assert(out0 + (seq![t@[i as int]] + spec_render(t@.skip(i + 1 as int), vars@))
                        =~= out0.push(t@[i as int]) + spec_render(t@.skip(i + 1 as int), vars@));
                }
                i = i + 1;
            },
        }
    }
    proof {
        assert(t@.skip(t@.len() as int) =~= Seq::<char>::empty());
        assert(out@ + Seq::<char>::empty() =~= out@);
    }
    chars_to_string(&out)
}

/// The set of character sequences the strings of `v` hold.
pub open spec fn str_set(v: Seq<String>) -> Set<Seq<char>> {
    Set::new(|x: Seq<char>| has_str(v, x))
}

/// The distinct identifiers of the placeholders still present in `rendered`,
/// one `String` each.
pub fn find_missing_placeholders(rendered: &str) -> (out: Vec<String>)
    ensures
        forall|x: Seq<char>| has_str(out@, x) <==> spec_placeholders(rendered@).contains(x),
        forall|k1: int, k2: int|
            0 <= k1 < k2 < out@.len() ==> (#[trigger] out@[k1])@ != (#[trigger] out@[k2])@,
{
    let t = str_chars(rendered);
    let mut out: Vec<String> = Vec::new();
    proof {
        assert(t@.skip(0) =~= t@);
        assert(spec_placeholders(t@).union(str_set(out@)) =~= spec_placeholders(t@));
    }
    let mut i: usize = 0;
    while i < t.len()
        invariant
            i <= t@.len(),
            t@ == rendered@,
            spec_placeholders(t@) == spec_placeholders(t@.skip(i as int)).union(str_set(out@)),
            forall|k1: int, k2: int|
                0 <= k1 < k2 < out@.len() ==> (#[trigger] out@[k1])@ != (#[trigger] out@[k2])@,
        decreases t@.len() - i,
    {
        let ghost s = t@.skip(i as int);
        match scan_at(&t, i) {
            Option::Some(j) => {
                let id = copy_range(&t, i + 2, j);
                proof {
                    assert(id@ == head_ident(s));
                    assert(s.skip(head_len(s)) =~= t@.skip(j + 1 as int));
                }
                let id_str = chars_to_string(&id);
                let ghost out0 = out@;
                if !vec_contains_str(&out, id_str.as_str()) {
                    out.push(id_str);
                    proof {
                        assert forall|x: Seq<char>| has_str(out@, x) implies has_str(out0, x) || x
                            == id@ by {
                            let k = choose|k: int| 0 <= k < out@.len() && (#[trigger] out@[k])@
                                == x;
                            if k < out0.len() {
                                assert(out0[k]@ == x);
                            }
                        }
                        assert forall|x: Seq<char>| has_str(out0, x) implies has_str(out@, x) by {
                            let k = choose|k: int| 0 <= k < out0.len() && (#[trigger] out0[k])@
                                == x;
                            assert(out@[k]@ == x);
                        }
                        assert(out@[out0.len() as int]@ == id@);
                        assert(str_set(out@) =~= str_set(out0).insert(id@));
                        assert(spec_placeholders(t@.skip(j + 1 as int)).insert(id@).union(
                            str_set(out0),
                        ) =~= spec_placeholders(t@.skip(j + 1 as int)).union(str_set(out@)));
                        assert forall|k1: int, k2: int|
                            0 <= k1 < k2 < out@.len() implies (#[trigger] out@[k1])@
                            != (#[trigger] out@[k2])@ by {
                            if k2 == out0.len() {
                                assert(!has_str(out0, id@));
                                assert(out@[k1]@ == out0[k1]@);
                            }
                        }
                    }
                } else {
                    proof {
                        assert(str_set(out@).contains(id@));
                        assert(spec_placeholders(t@.skip(j + 1 as int)).insert(id@).union(
                            str_set(out@),
                        ) =~= spec_placeholders(t@.skip(j + 1 as int)).union(str_set(out@)));
                    }
                }
                i = j + 1;
            },
            Option::None => {
                proof {
                    assert(s[0] == t@[i as int]);
                    assert(s.skip(1) =~= t@.skip(i + 1 as int));
                }
                i = i + 1;
            },
        }
    }
    proof {
        assert(t@.skip(t@.len() as int) =~= Seq::<char>::empty());
        assert forall|x: Seq<char>|
            spec_placeholders(rendered@).contains(x) implies has_str(out@, x) by {
            assert(spec_placeholders(t@.skip(t@.len() as int)).union(str_set(out@)).contains(x));
        }
        assert forall|x: Seq<char>| has_str(out@, x) implies spec_placeholders(
            rendered@,
        ).contains(x) by {
            assert(spec_placeholders(t@.skip(t@.len() as int)).union(str_set(out@)).contains(x));
        }
    }
    out
}

} // verus!
