//! The per-(template, namespace) decision: render, check that every
//! placeholder resolved, skip or emit, and stamp the namespace into emitted
//! documents.

use vstd::prelude::*;
use crate::chars::has_str;
use crate::inject::inject_namespace;
use crate::inject::spec_inject;
use crate::placeholder::find_missing_placeholders;
use crate::placeholder::render_template;
use crate::placeholder::spec_placeholders;
use crate::placeholder::spec_render;
use crate::vars::VarMap;

verus! {

/// The outcome of rendering one template for one namespace.
pub enum RenderResult {
    /// Every placeholder resolved; the document may be emitted.
    Rendered(String),
    /// Some placeholder stayed unresolved; the pair is passed over silently.
    Skipped,
}

/// Whether rendering `t` under `m` resolves everything: no placeholder
/// identifier outside `m`'s keys survives the pass.
pub open spec fn all_resolved(t: Seq<char>, m: Map<Seq<char>, Seq<char>>) -> bool {
    spec_placeholders(spec_render(t, m)).subset_of(m.dom())
}

/// Renders `template` and decides: `Rendered` with the document when every
/// placeholder identifier still present is a key of `vars`, `Skipped` when
/// one is not — an unresolved placeholder is a skip, not an error.
pub fn render_decision(template: &str, vars: &VarMap) -> (res: RenderResult)
    ensures
        all_resolved(template@, vars@) ==> (res matches RenderResult::Rendered(d) && d@
            == spec_render(template@, vars@)),
        !all_resolved(template@, vars@) ==> res is Skipped,
{
    let rendered = render_template(template, vars);
    let missing = find_missing_placeholders(rendered.as_str());
    let mut k: usize = 0;
    while k < missing.len()
        invariant
            k <= missing@.len(),
            rendered@ == spec_render(template@, vars@),
            forall|x: Seq<char>| has_str(missing@, x) <==> spec_placeholders(rendered@).contains(x),
            forall|k2: int| 0 <= k2 < k ==> vars@.dom().contains((#[trigger] missing@[k2])@),
        decreases missing@.len() - k,
    {
        if !vars.contains_key(missing[k].as_str()) {
            proof {
                assert(has_str(missing@, missing@[k as int]@));
                assert(spec_placeholders(rendered@).contains(missing@[k as int]@));
                assert(!all_resolved(template@, vars@));
            }
            return RenderResult::Skipped;
        }
        k = k + 1;
    }
    proof {
        assert forall|x: Seq<char>|
            spec_placeholders(rendered@).contains(x) implies vars@.dom().contains(x) by {
            assert(has_str(missing@, x));
            let k2 = choose|k2: int| 0 <= k2 < missing@.len() && (#[trigger] missing@[k2])@ == x;
            assert(vars@.dom().contains(missing@[k2]@));
        }
        assert(all_resolved(template@, vars@));
    }
    RenderResult::Rendered(rendered)
}

/// The outcome of one (template, namespace) pair.
pub enum PairOutcome {
    /// The pair is passed over: no document, no warning, no error.
    Skip,
    /// The finished document, and whether a namespace-override warning is due.
    Emit { document: String, warning: bool },
}

/// What one (template, namespace) pair yields: `None` to skip the pair, or
/// the injected document with its warning flag.
pub open spec fn spec_pair(t: Seq<char>, ns: Seq<char>, m: Map<Seq<char>, Seq<char>>) -> Option<
    (Seq<char>, bool),
> {
    if all_resolved(t, m) {
        Option::Some(spec_inject(spec_render(t, m), t, ns))
    } else {
        Option::None
    }
}

/// Runs the whole decision for one pair: render `template` under `vars`,
/// skip when a placeholder stays unresolved, otherwise stamp `namespace`
/// into the document and emit it.
pub fn process_pair(template: &str, namespace: &str, vars: &VarMap) -> (res: PairOutcome)
    ensures
        match res {
            PairOutcome::Skip => spec_pair(template@, namespace@, vars@) is None,
            PairOutcome::Emit { document, warning } => spec_pair(template@, namespace@, vars@)
                == Option::Some((document@, warning)),
        },
{
    match render_decision(template, vars) {
        RenderResult::Skipped => PairOutcome::Skip,
        RenderResult::Rendered(doc) => {
            let (document, warning) = inject_namespace(doc.as_str(), template, namespace);
            PairOutcome::Emit { document, warning }
        },
    }
}

/// The output file name of a template stem: `<stem>.enc.yaml`.
pub fn enc_file_name(stem: &str) -> (name: String)
    ensures
        name@ == stem@ + ".enc.yaml"@,
{
    let mut name = stem.to_owned();
    name.append(".enc.yaml");
    name
}

} // verus!
