//! The scoped-secret configuration and the namespace resolver: collecting the
//! namespaces a configuration mentions, and flattening it into the variable
//! map of one namespace, later entries winning on a shared key.

use vstd::prelude::*;
use crate::chars::distinct_strs;
use crate::chars::has_str;
use crate::chars::push_unique;
use crate::chars::str_eq;
use crate::vars::VarMap;

verus! {

/// One secret value, valid in an explicit set of namespaces.
pub struct ScopedSecret {
    pub namespaces: Vec<String>,
    pub value: String,
}

/// One configuration entry: a secret key and its scoped values, in
/// declaration order.
pub struct ConfigEntry {
    pub key: String,
    pub secrets: Vec<ScopedSecret>,
}

/// The whole scoped-secret configuration.
pub type Config = Vec<ConfigEntry>;

/// Whether the secret `s` is valid in namespace `ns`.
pub open spec fn secret_mentions(s: ScopedSecret, ns: Seq<char>) -> bool {
    has_str(s.namespaces@, ns)
}

/// Whether some secret of `secrets` is valid in `ns`.
pub open spec fn secrets_mention(secrets: Seq<ScopedSecret>, ns: Seq<char>) -> bool {
    exists|j: int| 0 <= j < secrets.len() && secret_mentions(#[trigger] secrets[j], ns)
}

/// Whether any entry of `c` has a secret valid in `ns`.
pub open spec fn config_mentions(c: Seq<ConfigEntry>, ns: Seq<char>) -> bool {
    exists|i: int| 0 <= i < c.len() && secrets_mention((#[trigger] c[i]).secrets@, ns)
}

/// Whether `key` has an entry with a secret valid in `ns`.
pub open spec fn config_has_key_for(c: Seq<ConfigEntry>, key: Seq<char>, ns: Seq<char>) -> bool {
    exists|i: int|
        0 <= i < c.len() && (#[trigger] c[i]).key@ == key && secrets_mention(c[i].secrets@, ns)
}

/// `m` after resolving one key's secrets for `ns`, in declaration order.
pub open spec fn resolve_secrets(
    m: Map<Seq<char>, Seq<char>>,
    key: Seq<char>,
    secrets: Seq<ScopedSecret>,
    ns: Seq<char>,
) -> Map<Seq<char>, Seq<char>>
    decreases secrets.len(),
{
    if secrets.len() == 0 {
        m
    } else {
        let m1 = if secret_mentions(secrets[0], ns) {
            m.insert(key, secrets[0].value@)
        } else {
            m
        };
        resolve_secrets(m1, key, secrets.drop_first(), ns)
    }
}

/// `m` after resolving every entry of `c` for `ns`, in order.
pub open spec fn resolve_config(
    m: Map<Seq<char>, Seq<char>>,
    c: Seq<ConfigEntry>,
    ns: Seq<char>,
) -> Map<Seq<char>, Seq<char>>
    decreases c.len(),
{
    if c.len() == 0 {
        m
    } else {
        resolve_config(resolve_secrets(m, c[0].key@, c[0].secrets@, ns), c.drop_first(), ns)
    }
}

/// The variable map of namespace `ns` under configuration `c`.
pub open spec fn spec_resolve(c: Seq<ConfigEntry>, ns: Seq<char>) -> Map<Seq<char>, Seq<char>> {
    resolve_config(Map::empty(), c, ns)
}

proof fn lemma_resolve_secrets_snoc(
    m: Map<Seq<char>, Seq<char>>,
    key: Seq<char>,
    secrets: Seq<ScopedSecret>,
    x: ScopedSecret,
    ns: Seq<char>,
)
    ensures
        resolve_secrets(m, key, secrets.push(x), ns) == (if secret_mentions(x, ns) {
            resolve_secrets(m, key, secrets, ns).insert(key, x.value@)
        } else {
            resolve_secrets(m, key, secrets, ns)
        }),
    decreases secrets.len(),
{
    let s1 = secrets.push(x);
    if secrets.len() == 0 {
        assert(s1[0] == x);
        assert(s1.drop_first() =~= Seq::<ScopedSecret>::empty());
        let mm = if secret_mentions(x, ns) {
            m.insert(key, x.value@)
        } else {
            m
        };
        assert(resolve_secrets(m, key, s1, ns) == resolve_secrets(mm, key, s1.drop_first(), ns));
        assert(resolve_secrets(mm, key, s1.drop_first(), ns) == mm);
    } else {
        assert(s1[0] == secrets[0]);
        assert(s1.drop_first() =~= secrets.drop_first().push(x));
        let m1 = if secret_mentions(secrets[0], ns) {
            m.insert(key, secrets[0].value@)
        } else {
            m
        };
        assert(resolve_secrets(m, key, s1, ns) == resolve_secrets(m1, key, s1.drop_first(), ns));
        assert(resolve_secrets(m, key, secrets, ns) == resolve_secrets(
            m1,
            key,
            secrets.drop_first(),
            ns,
        ));
        lemma_resolve_secrets_snoc(m1, key, secrets.drop_first(), x, ns);
    }
}

proof fn lemma_resolve_config_snoc(
    m: Map<Seq<char>, Seq<char>>,
    c: Seq<ConfigEntry>,
    x: ConfigEntry,
    ns: Seq<char>,
)
    ensures
        resolve_config(m, c.push(x), ns) == resolve_secrets(
            resolve_config(m, c, ns),
            x.key@,
            x.secrets@,
            ns,
        ),
    decreases c.len(),
{
    let c1 = c.push(x);
    if c.len() == 0 {
        assert(c1[0] == x);
        assert(c1.drop_first() =~= Seq::<ConfigEntry>::empty());
        let mm = resolve_secrets(m, x.key@, x.secrets@, ns);
        assert(resolve_config(m, c1, ns) == resolve_config(mm, c1.drop_first(), ns));
        assert(resolve_config(mm, c1.drop_first(), ns) == mm);
        assert(resolve_config(m, c, ns) == m);
    } else {
        assert(c1[0] == c[0]);
        assert(c1.drop_first() =~= c.drop_first().push(x));
        let m1 = resolve_secrets(m, c[0].key@, c[0].secrets@, ns);
        assert(resolve_config(m, c1, ns) == resolve_config(m1, c1.drop_first(), ns));
        assert(resolve_config(m, c, ns) == resolve_config(m1, c.drop_first(), ns));
        lemma_resolve_config_snoc(m1, c.drop_first(), x, ns);
    }
}

/// Whether `secrets[j]` is valid in `ns` and no later secret of `secrets` is.
pub open spec fn is_last_secret_match(secrets: Seq<ScopedSecret>, ns: Seq<char>, j: int) -> bool {
    &&& 0 <= j < secrets.len()
    &&& secret_mentions(secrets[j], ns)
    &&& forall|j2: int| j < j2 < secrets.len() ==> !secret_mentions(#[trigger] secrets[j2], ns)
}

/// Whether position (`i`, `j`) of `c` is the last secret for `key` valid in
/// `ns`, in flattened declaration order.
pub open spec fn is_last_match(
    c: Seq<ConfigEntry>,
    ns: Seq<char>,
    key: Seq<char>,
    i: int,
    j: int,
) -> bool {
    &&& 0 <= i < c.len()
    &&& 0 <= j < c[i].secrets@.len()
    &&& c[i].key@ == key
    &&& secret_mentions(c[i].secrets@[j], ns)
    &&& forall|i2: int, j2: int|
        (0 <= i2 < c.len() && 0 <= j2 < (#[trigger] c[i2]).secrets@.len() && c[i2].key@ == key
            && secret_mentions(#[trigger] c[i2].secrets@[j2], ns)) ==> (i2 < i || (i2 == i && j2
            <= j))
}

proof fn lemma_resolve_secrets_exact(
    m: Map<Seq<char>, Seq<char>>,
    key: Seq<char>,
    secrets: Seq<ScopedSecret>,
    ns: Seq<char>,
)
    ensures
        forall|k: Seq<char>|
            #![trigger resolve_secrets(m, key, secrets, ns).dom().contains(k)]
            #![trigger m.dom().contains(k)]
            resolve_secrets(m, key, secrets, ns).dom().contains(k) <==> (m.dom().contains(k) || (k
                == key && secrets_mention(secrets, ns))),
        forall|k: Seq<char>|
            k != key && m.dom().contains(k) ==> #[trigger] resolve_secrets(m, key, secrets, ns)[k]
                == m[k],
        !secrets_mention(secrets, ns) ==> resolve_secrets(m, key, secrets, ns) == m,
        secrets_mention(secrets, ns) ==> exists|j: int|
            is_last_secret_match(secrets, ns, j) && resolve_secrets(m, key, secrets, ns)[key]
                == secrets[j].value@,
    decreases secrets.len(),
{
    if secrets.len() == 0 {
        assert(!secrets_mention(secrets, ns));
    } else {
        let s0 = secrets.drop_last();
        let x = secrets.last();
        assert(s0.push(x) =~= secrets);
        lemma_resolve_secrets_snoc(m, key, s0, x, ns);
        lemma_resolve_secrets_exact(m, key, s0, ns);
        let r0 = resolve_secrets(m, key, s0, ns);
        let r = resolve_secrets(m, key, secrets, ns);
        assert forall|j: int|
            0 <= j < s0.len() && secret_mentions(#[trigger] s0[j], ns) implies secret_mentions(
            secrets[j],
            ns,
        ) by {
            assert(s0[j] == secrets[j]);
        }
        if secret_mentions(x, ns) {
            assert(r == r0.insert(key, x.value@));
            assert(secret_mentions(secrets[secrets.len() - 1], ns));
            assert(secrets_mention(secrets, ns));
            assert(is_last_secret_match(secrets, ns, secrets.len() - 1));
            assert(r[key] == x.value@);
        } else {
            assert(r == r0);
            assert forall|j: int|
                0 <= j < secrets.len() && secret_mentions(
                    #[trigger] secrets[j],
                    ns,
                ) implies secrets_mention(s0, ns) by {
                if j < secrets.len() - 1 {
                    assert(s0[j] == secrets[j]);
                    assert(secret_mentions(s0[j], ns));
                } else {
                    assert(secrets[j] == x);
                }
            }
            assert(secrets_mention(secrets, ns) == secrets_mention(s0, ns));
            if secrets_mention(s0, ns) {
                let j = choose|j: int|
                    is_last_secret_match(s0, ns, j) && r0[key] == s0[j].value@;
                assert(s0[j] == secrets[j]);
                assert forall|j2: int|
                    j < j2 < secrets.len() implies !secret_mentions(#[trigger] secrets[j2], ns) by {
                    if j2 < secrets.len() - 1 {
                        assert(secrets[j2] == s0[j2]);
                    } else {
                        assert(secrets[j2] == x);
                    }
                }
                assert(is_last_secret_match(secrets, ns, j));
            }
        }
    }
}

/// Law: resolving the variables of a namespace yields exactly the keys one of
/// whose secrets is valid in that namespace, each mapped to the value of the
/// last such secret in flattened declaration order — a later entry or secret
/// overrides an earlier one for the same key.
pub proof fn lemma_resolve_variables_exact(c: Seq<ConfigEntry>, ns: Seq<char>)
    ensures
        forall|key: Seq<char>|
            #![trigger spec_resolve(c, ns).dom().contains(key)]
            #![trigger config_has_key_for(c, key, ns)]
            spec_resolve(c, ns).dom().contains(key) <==> config_has_key_for(c, key, ns),
        forall|key: Seq<char>| #[trigger] config_has_key_for(c, key, ns) ==> exists|i: int, j: int|
            is_last_match(c, ns, key, i, j) && spec_resolve(c, ns)[key] == c[i].secrets@[j].value@,
    decreases c.len(),
{
    if c.len() == 0 {
        assert forall|key: Seq<char>| !config_has_key_for(c, key, ns) by {}
        assert(spec_resolve(c, ns) =~= Map::<Seq<char>, Seq<char>>::empty());
    } else {
        let c0 = c.drop_last();
        let e = c.last();
        assert(c0.push(e) =~= c);
        lemma_resolve_variables_exact(c0, ns);
        lemma_resolve_config_snoc(Map::<Seq<char>, Seq<char>>::empty(), c0, e, ns);
        let m0 = spec_resolve(c0, ns);
        let r = spec_resolve(c, ns);
        assert(r == resolve_secrets(m0, e.key@, e.secrets@, ns));
        lemma_resolve_secrets_exact(m0, e.key@, e.secrets@, ns);
        assert forall|key: Seq<char>|
            #[trigger] config_has_key_for(c0, key, ns) implies config_has_key_for(c, key, ns) by {
            let i = choose|i: int|
                0 <= i < c0.len() && (#[trigger] c0[i]).key@ == key && secrets_mention(
                    c0[i].secrets@,
                    ns,
                );
            assert(c[i] == c0[i]);
            assert(c[i].key@ == key && secrets_mention(c[i].secrets@, ns));
        }
        assert forall|key: Seq<char>|
            #[trigger] config_has_key_for(c, key, ns) implies (config_has_key_for(c0, key, ns) || (
            key == e.key@ && secrets_mention(e.secrets@, ns))) by {
            let i = choose|i: int|
                0 <= i < c.len() && (#[trigger] c[i]).key@ == key && secrets_mention(
                    c[i].secrets@,
                    ns,
                );
            if i < c.len() - 1 {
                assert(c0[i] == c[i]);
                assert(c0[i].key@ == key && secrets_mention(c0[i].secrets@, ns));
            } else {
                assert(c[i] == e);
            }
        }
        if secrets_mention(e.secrets@, ns) {
            assert(c[c.len() - 1] == e);
            assert(config_has_key_for(c, e.key@, ns));
        }
        // domains agree
        assert forall|key: Seq<char>|
            #![trigger spec_resolve(c, ns).dom().contains(key)]
            #![trigger config_has_key_for(c, key, ns)]
            spec_resolve(c, ns).dom().contains(key) <==> config_has_key_for(c, key, ns) by {
            assert(r.dom().contains(key) <==> (m0.dom().contains(key) || (key == e.key@
                && secrets_mention(e.secrets@, ns))));
        }
        // values: the last match wins
        assert forall|key: Seq<char>| #[trigger] config_has_key_for(c, key, ns) implies exists|
            i: int,
            j: int,
        |
            is_last_match(c, ns, key, i, j) && spec_resolve(c, ns)[key]
                == c[i].secrets@[j].value@ by {
            if key == e.key@ && secrets_mention(e.secrets@, ns) {
                let j = choose|j: int|
                    is_last_secret_match(e.secrets@, ns, j) && resolve_secrets(
                        m0,
                        e.key@,
                        e.secrets@,
                        ns,
                    )[key] == e.secrets@[j].value@;
                let i = c.len() - 1;
                assert(c[i] == e);
                assert forall|i2: int, j2: int|
                    (0 <= i2 < c.len() && 0 <= j2 < (#[trigger] c[i2]).secrets@.len()
                        && c[i2].key@ == key && secret_mentions(
                        #[trigger] c[i2].secrets@[j2],
                        ns,
                    )) implies (i2 < i || (i2 == i && j2 <= j)) by {
                    if i2 == i {
                        assert(c[i2] == e);
                        assert(!(j < j2 < e.secrets@.len()) ==> j2 <= j);
                    }
                }
                assert(is_last_match(c, ns, key, i, j));
                assert(r[key] == c[i].secrets@[j].value@);
            } else {
                assert(config_has_key_for(c0, key, ns));
                let (i, j) = choose|i: int, j: int|
                    is_last_match(c0, ns, key, i, j) && spec_resolve(c0, ns)[key]
                        == c0[i].secrets@[j].value@;
                assert(c[i] == c0[i]);
                assert(m0.dom().contains(key));
                assert(r[key] == m0[key]) by {
                    if key == e.key@ {
                        assert(!secrets_mention(e.secrets@, ns));
                        assert(r == m0);
                    }
                }
                assert forall|i2: int, j2: int|
                    (0 <= i2 < c.len() && 0 <= j2 < (#[trigger] c[i2]).secrets@.len()
                        && c[i2].key@ == key && secret_mentions(
                        #[trigger] c[i2].secrets@[j2],
                        ns,
                    )) implies (i2 < i || (i2 == i && j2 <= j)) by {
                    if i2 < c.len() - 1 {
                        assert(c0[i2] == c[i2]);
                        assert(0 <= i2 < c0.len() && 0 <= j2 < c0[i2].secrets@.len()
                            && c0[i2].key@ == key && secret_mentions(c0[i2].secrets@[j2], ns));
                    } else {
                        assert(c[i2] == e);
                        assert(secrets_mention(e.secrets@, ns));
                    }
                }
                assert(is_last_match(c, ns, key, i, j));
            }
        }
    }
}

/// Whether `s` is valid in namespace `ns`.
pub fn secret_applies(s: &ScopedSecret, ns: &str) -> (b: bool)
    ensures
        b == secret_mentions(*s, ns@),
{
    let mut l: usize = 0;
    while l < s.namespaces.len()
        invariant
            l <= s.namespaces@.len(),
            forall|k: int| 0 <= k < l ==> (#[trigger] s.namespaces@[k])@ != ns@,
        decreases s.namespaces@.len() - l,
    {
        if str_eq(s.namespaces[l].as_str(), ns) {
            return true;
        }
        l = l + 1;
    }
    false
}

/// The per-namespace variable map: for each entry whose secret is valid in
/// `namespace`, its key maps to that secret's value, a later secret or entry
/// overriding an earlier one for the same key.
pub fn extract_namespace_vars(config: &Config, namespace: &str) -> (vars: VarMap)
    ensures
        vars@ == spec_resolve(config@, namespace@),
{
    let mut vars = VarMap::new();
    proof {
        assert(config@.take(0) =~= Seq::<ConfigEntry>::empty());
    }
    let mut i: usize = 0;
    while i < config.len()
        invariant
            i <= config@.len(),
            vars@ == resolve_config(Map::empty(), config@.take(i as int), namespace@),
        decreases config@.len() - i,
    {
        let entry = &config[i];
        let ghost m_entry = vars@;
        proof {
            assert(entry.secrets@.take(0) =~= Seq::<ScopedSecret>::empty());
        }
        let mut j: usize = 0;
        while j < entry.secrets.len()
            invariant
                j <= entry.secrets@.len(),
                vars@ == resolve_secrets(
                    m_entry,
                    entry.key@,
                    entry.secrets@.take(j as int),
                    namespace@,
                ),
            decreases entry.secrets@.len() - j,
        {
            if secret_applies(&entry.secrets[j], namespace) {
                vars.insert(entry.key.as_str(), entry.secrets[j].value.as_str());
            }
            proof {
                lemma_resolve_secrets_snoc(
                    m_entry,
                    entry.key@,
                    entry.secrets@.take(j as int),
                    entry.secrets@[j as int],
                    namespace@,
                );
                assert(entry.secrets@.take(j as int).push(entry.secrets@[j as int])
                    =~= entry.secrets@.take(j + 1 as int));
            }
            j = j + 1;
        }
        proof {
            assert(entry.secrets@.take(entry.secrets@.len() as int) =~= entry.secrets@);
            lemma_resolve_config_snoc(
                Map::empty(),
                config@.take(i as int),
                config@[i as int],
                namespace@,
            );
            assert(config@.take(i as int).push(config@[i as int]) =~= config@.take(i + 1 as int));
        }
        i = i + 1;
    }
    proof {
        assert(config@.take(config@.len() as int) =~= config@);
    }
    vars
}

proof fn lemma_config_mentions_snoc(c: Seq<ConfigEntry>, i: int, x: Seq<char>)
    requires
        0 <= i < c.len(),
    ensures
        config_mentions(c.take(i + 1), x) <==> (config_mentions(c.take(i), x) || secrets_mention(
            c[i].secrets@,
            x,
        )),
{
    if config_mentions(c.take(i + 1), x) {
        let w = choose|w: int|
            0 <= w < c.take(i + 1).len() && secrets_mention(
                (#[trigger] c.take(i + 1)[w]).secrets@,
                x,
            );
        if w < i {
            assert(c.take(i)[w] == c.take(i + 1)[w]);
            assert(secrets_mention((c.take(i)[w]).secrets@, x));
        } else {
            assert(c.take(i + 1)[w] == c[i]);
        }
    }
    if config_mentions(c.take(i), x) {
        let w = choose|w: int|
            0 <= w < c.take(i).len() && secrets_mention((#[trigger] c.take(i)[w]).secrets@, x);
        assert(c.take(i + 1)[w] == c.take(i)[w]);
        assert(secrets_mention((c.take(i + 1)[w]).secrets@, x));
    }
    if secrets_mention(c[i].secrets@, x) {
        assert(c.take(i + 1)[i] == c[i]);
        assert(secrets_mention((c.take(i + 1)[i]).secrets@, x));
    }
}

proof fn lemma_secrets_mention_snoc(secrets: Seq<ScopedSecret>, j: int, x: Seq<char>)
    requires
        0 <= j < secrets.len(),
    ensures
        secrets_mention(secrets.take(j + 1), x) <==> (secrets_mention(secrets.take(j), x)
            || secret_mentions(secrets[j], x)),
{
    if secrets_mention(secrets.take(j + 1), x) {
        let w = choose|w: int|
            0 <= w < secrets.take(j + 1).len() && secret_mentions(
                #[trigger] secrets.take(j + 1)[w],
                x,
            );
        if w < j {
            assert(secrets.take(j)[w] == secrets.take(j + 1)[w]);
            assert(secret_mentions(secrets.take(j)[w], x));
        } else {
            assert(secrets.take(j + 1)[w] == secrets[j]);
        }
    }
    if secrets_mention(secrets.take(j), x) {
        let w = choose|w: int|
            0 <= w < secrets.take(j).len() && secret_mentions(#[trigger] secrets.take(j)[w], x);
        assert(secrets.take(j + 1)[w] == secrets.take(j)[w]);
        assert(secret_mentions(secrets.take(j + 1)[w], x));
    }
    if secret_mentions(secrets[j], x) {
        assert(secrets.take(j + 1)[j] == secrets[j]);
        assert(secret_mentions(secrets.take(j + 1)[j], x));
    }
}

/// Every namespace mentioned anywhere in `config`, each once, in first
/// mention order.
pub fn collect_all_namespaces(config: &Config) -> (out: Vec<String>)
    ensures
        forall|x: Seq<char>| has_str(out@, x) <==> config_mentions(config@, x),
        distinct_strs(out@),
{
    let mut out: Vec<String> = Vec::new();
    proof {
        assert(config@.take(0) =~= Seq::<ConfigEntry>::empty());
    }
    let mut i: usize = 0;
    while i < config.len()
        invariant
            i <= config@.len(),
            distinct_strs(out@),
            forall|x: Seq<char>|
                has_str(out@, x) <==> config_mentions(config@.take(i as int), x),
        decreases config@.len() - i,
    {
        let entry = &config[i];
        proof {
            assert(entry.secrets@.take(0) =~= Seq::<ScopedSecret>::empty());
        }
        let mut j: usize = 0;
        while j < entry.secrets.len()
            invariant
                j <= entry.secrets@.len(),
                distinct_strs(out@),
                forall|x: Seq<char>|
                    has_str(out@, x) <==> (config_mentions(config@.take(i as int), x)
                        || secrets_mention(entry.secrets@.take(j as int), x)),
        decreases entry.secrets@.len() - j,
        {
            let sec = &entry.secrets[j];
            proof {
                assert(sec.namespaces@.take(0) =~= Seq::<String>::empty());
            }
            let mut l: usize = 0;
            while l < sec.namespaces.len()
                invariant
                    l <= sec.namespaces@.len(),
                    distinct_strs(out@),
                    forall|x: Seq<char>|
                        has_str(out@, x) <==> (config_mentions(config@.take(i as int), x)
                            || secrets_mention(entry.secrets@.take(j as int), x) || has_str(
                            sec.namespaces@.take(l as int),
                            x,
                        )),
                decreases sec.namespaces@.len() - l,
            {
                let ghost out_prev = out@;
                push_unique(&mut out, &sec.namespaces[l]);
                proof {
                    assert forall|x: Seq<char>|
                        has_str(sec.namespaces@.take(l + 1 as int), x) <==> (has_str(
                            sec.namespaces@.take(l as int),
                            x,
                        ) || x == sec.namespaces@[l as int]@) by {
                        if has_str(sec.namespaces@.take(l + 1 as int), x) {
                            let w = choose|w: int|
                                0 <= w < l + 1 && (#[trigger] sec.namespaces@.take(l + 1 as int)[w])@
                                    == x;
                            if w < l {
                                assert(sec.namespaces@.take(l as int)[w]@ == x);
                            }
                        }
                        if has_str(sec.namespaces@.take(l as int), x) {
                            let w = choose|w: int|
                                0 <= w < l && (#[trigger] sec.namespaces@.take(l as int)[w])@ == x;
                            assert(sec.namespaces@.take(l + 1 as int)[w]@ == x);
                        }
                        if x == sec.namespaces@[l as int]@ {
                            assert(sec.namespaces@.take(l + 1 as int)[l as int]@ == x);
                        }
                    }
                    assert forall|x: Seq<char>|
                        has_str(out@, x) <==> (config_mentions(config@.take(i as int), x)
                            || secrets_mention(entry.secrets@.take(j as int), x) || has_str(
                            sec.namespaces@.take(l + 1 as int),
                            x,
                        )) by {
                        assert(has_str(out_prev, x) <==> (config_mentions(
                            config@.take(i as int),
                            x,
                        ) || secrets_mention(entry.secrets@.take(j as int), x) || has_str(
                            sec.namespaces@.take(l as int),
                            x,
                        )));
                        assert(has_str(out@, x) <==> (has_str(out_prev, x) || x
                            == sec.namespaces@[l as int]@));
                        assert(has_str(sec.namespaces@.take(l + 1 as int), x) <==> (has_str(
                            sec.namespaces@.take(l as int),
                            x,
                        ) || x == sec.namespaces@[l as int]@));
                    }
                }
                l = l + 1;
            }
            proof {
                assert(sec.namespaces@.take(sec.namespaces@.len() as int) =~= sec.namespaces@);
                assert forall|x: Seq<char>|
                    has_str(out@, x) <==> (config_mentions(config@.take(i as int), x)
                        || secrets_mention(entry.secrets@.take(j + 1 as int), x)) by {
                    lemma_secrets_mention_snoc(entry.secrets@, j as int, x);
                    assert(secret_mentions(entry.secrets@[j as int], x) == has_str(
                        sec.namespaces@,
                        x,
                    ));
                }
            }
            j = j + 1;
        }
        proof {
            assert(entry.secrets@.take(entry.secrets@.len() as int) =~= entry.secrets@);
            assert forall|x: Seq<char>|
                has_str(out@, x) <==> config_mentions(config@.take(i + 1 as int), x) by {
                lemma_config_mentions_snoc(config@, i as int, x);
                assert(secrets_mention(config@[i as int].secrets@, x) == secrets_mention(
                    entry.secrets@,
                    x,
                ));
            }
        }
        i = i + 1;
    }
    proof {
        assert(config@.take(config@.len() as int) =~= config@);
    }
    out
}

} // verus!
