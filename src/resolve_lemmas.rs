use vstd::prelude::*;

use crate::parser::{lit_def, DocModel, Fragment, VarDef};
use crate::resolve::{
    bind, consistent, first_visits, merge, merge_chain, pass, resolve_def, resolve_frags,
    root_first, NsModel,
};

verus! {

proof fn lemma_first_visits(s: Seq<(Seq<char>, DocModel)>)
    ensures
        forall|j: int|
            0 <= j < first_visits(s).len() ==> exists|i: int|
                0 <= i < s.len() && #[trigger] first_visits(s)[j] == s[i],
        forall|i: int, j: int|
            0 <= i < j < first_visits(s).len() ==> first_visits(s)[i].0 != first_visits(s)[j].0,
    decreases s.len(),
{
    if s.len() > 0 {
        let p = s.drop_last();
        let fp = first_visits(p);
        lemma_first_visits(p);
        let dup = exists|q: int| 0 <= q < s.len() - 1 && s[q].0 == s.last().0;
        let f = first_visits(s);
        assert(f == if dup {
            fp
        } else {
            fp.push(s.last())
        });
        assert forall|j: int| 0 <= j < f.len() implies exists|i: int|
            0 <= i < s.len() && #[trigger] f[j] == s[i] by {
            if j < fp.len() {
                let i = choose|i: int| 0 <= i < p.len() && fp[j] == p[i];
                assert(f[j] == fp[j] && p[i] == s[i]);
            } else {
                assert(f[j] == s[s.len() - 1]);
            }
        }
        if !dup {
            assert forall|i: int, j: int| 0 <= i < j < f.len() implies f[i].0 != f[j].0 by {
                if j == f.len() - 1 {
                    let q = choose|q: int| 0 <= q < p.len() && fp[i] == p[q];
                    assert(f[i] == fp[i] && p[q] == s[q]);
                } else {
                    assert(f[i] == fp[i] && f[j] == fp[j]);
                }
            }
        }
    }
}

/// Each directory at most once: the order of resolution never holds a
/// directory twice, however often the walk met it, and each of its entries
/// is one that the walk found.
pub proof fn lemma_root_first_once(found: Seq<(Seq<char>, DocModel)>)
    ensures
        forall|i: int, j: int|
            0 <= i < j < root_first(found).len() ==> root_first(found)[i].0 != root_first(
                found,
            )[j].0,
        forall|j: int|
            0 <= j < root_first(found).len() ==> exists|i: int|
                0 <= i < found.len() && #[trigger] root_first(found)[j] == found[i],
{
    let r = found.reverse();
    lemma_first_visits(r);
    assert forall|j: int| 0 <= j < root_first(found).len() implies exists|i: int|
        0 <= i < found.len() && #[trigger] root_first(found)[j] == found[i] by {
        let k = choose|k: int| 0 <= k < r.len() && root_first(found)[j] == r[k];
        assert(r[k] == found[found.len() - 1 - k]);
    }
}


proof fn lemma_literal_text(t: Seq<char>, env: Map<Seq<char>, Seq<char>>)
    ensures
        resolve_frags(seq![Fragment::Literal(t)], env) == Ok::<Seq<char>, Seq<char>>(t),
{
    let fs = seq![Fragment::Literal(t)];
    assert(fs.drop_first() =~= Seq::<Fragment>::empty());
    assert(resolve_frags(fs.drop_first(), env) == Ok::<Seq<char>, Seq<char>>(Seq::empty()));
    assert(fs[0] == Fragment::Literal(t));
    assert(t + Seq::<char>::empty() =~= t);
}

/// A definition of a literal name with a literal value always resolves at
/// once and binds the name.
pub proof fn lemma_literal_def(ns: NsModel, internal: bool, n: Seq<char>, v: Seq<char>)
    ensures
        merge(ns, seq![lit_def(internal, n, v)]) == (bind(ns, internal, n, v), None::<
            Seq<Seq<char>>,
        >),
{
    let d = lit_def(internal, n, v);
    lemma_literal_text(n, ns.visible);
    lemma_literal_text(v, ns.visible);
    assert(seq![d].drop_first() =~= Seq::<VarDef>::empty());
    let ns2 = bind(ns, internal, n, v);
    assert(pass(ns2, seq![d].drop_first()) == (
        ns2,
        Seq::<VarDef>::empty(),
        Seq::<Seq<char>>::empty(),
    ));
    assert(seq![d][0] == d);
    assert(pass(ns, seq![d]) == (ns2, Seq::<VarDef>::empty(), Seq::<Seq<char>>::empty()));
    assert(merge(ns2, Seq::<VarDef>::empty()) == (ns2, None::<Seq<Seq<char>>>));
}

/// Resolution failure: a definition whose value refers to a name that
/// nothing defined makes the first pass resolve nothing, and the merge fails
/// naming exactly that name.
pub proof fn lemma_missing_reference(ns: NsModel, internal: bool, n: Seq<char>, m: Seq<char>)
    requires
        !ns.visible.contains_key(m),
    ensures
        ({
            let d = VarDef {
                internal,
                name: seq![Fragment::Literal(n)],
                value: seq![Fragment::Reference(m)],
            };
            &&& pass(ns, seq![d]) == (ns, seq![d], seq![m])
            &&& merge(ns, seq![d]) == (ns, Some(seq![m]))
        }),
{
    let d = VarDef {
        internal,
        name: seq![Fragment::Literal(n)],
        value: seq![Fragment::Reference(m)],
    };
    lemma_literal_text(n, ns.visible);
    assert(d.value[0] == Fragment::Reference(m));
    assert(resolve_frags(d.value, ns.visible) == Err::<Seq<char>, Seq<char>>(m));
    assert(seq![d].drop_first() =~= Seq::<VarDef>::empty());
    assert(seq![d][0] == d);
    assert(pass(ns, seq![d].drop_first()) == (
        ns,
        Seq::<VarDef>::empty(),
        Seq::<Seq<char>>::empty(),
    ));
    assert(seq![d] + Seq::<VarDef>::empty() =~= seq![d]);
    assert(seq![m] + Seq::<Seq<char>>::empty() =~= seq![m]);
}

proof fn lemma_pass_internal(ns: NsModel, defs: Seq<VarDef>)
    requires
        forall|i: int| 0 <= i < defs.len() ==> (#[trigger] defs[i]).internal,
    ensures
        pass(ns, defs).0.exported == ns.exported,
        forall|i: int| 0 <= i < pass(ns, defs).1.len() ==> (#[trigger] pass(ns, defs).1[i]).internal,
    decreases defs.len(),
{
    if defs.len() > 0 {
        let rest = defs.drop_first();
        assert forall|i: int| 0 <= i < rest.len() implies (#[trigger] rest[i]).internal by {
            assert(rest[i] == defs[i + 1]);
        }
        match resolve_def(defs[0], ns.visible) {
            Ok((n, v)) => {
                lemma_pass_internal(bind(ns, defs[0].internal, n, v), rest);
            },
            Err(m) => {
                lemma_pass_internal(ns, rest);
                let r = pass(ns, rest);
                assert forall|i: int| 0 <= i < (seq![defs[0]] + r.1).len() implies (#[trigger] (
                seq![defs[0]] + r.1)[i]).internal by {
                    if i > 0 {
                        assert((seq![defs[0]] + r.1)[i] == r.1[i - 1]);
                    }
                }
            },
        }
    }
}

/// Internal and exported variables stay apart: merging definitions that are
/// all internal leaves the exported variables as they were, so no export
/// statement ever comes from one.
pub proof fn lemma_internal_not_exported(ns: NsModel, defs: Seq<VarDef>)
    requires
        forall|i: int| 0 <= i < defs.len() ==> (#[trigger] defs[i]).internal,
    ensures
        merge(ns, defs).0.exported == ns.exported,
    decreases defs.len(),
{
    if defs.len() > 0 {
        lemma_pass_internal(ns, defs);
        let (ns2, rest, miss) = pass(ns, defs);
        if rest.len() < defs.len() {
            lemma_internal_not_exported(ns2, rest);
        }
    }
}

/// An internal definition is still visible to the references that later
/// definitions make, while the exported variables stay as they were.
pub proof fn lemma_internal_visible(ns: NsModel, n: Seq<char>, v: Seq<char>)
    ensures
        merge(ns, seq![lit_def(true, n, v)]).1 is None,
        merge(ns, seq![lit_def(true, n, v)]).0.visible == ns.visible.insert(n, v),
        merge(ns, seq![lit_def(true, n, v)]).0.internal == ns.internal.insert(n, v),
        merge(ns, seq![lit_def(true, n, v)]).0.exported == ns.exported,
{
    lemma_literal_def(ns, true, n, v);
}

/// Shadowing: when a directory and a descendant both define the exported
/// variable `z`, the descendant's value is the one that stays.
pub proof fn lemma_shadowing(
    ns: NsModel,
    a: Seq<char>,
    c: Seq<char>,
    parent: DocModel,
    child: DocModel,
    z: Seq<char>,
    v1: Seq<char>,
    v2: Seq<char>,
)
    requires
        parent.variables == seq![lit_def(false, z, v1)],
        child.variables == seq![lit_def(false, z, v2)],
    ensures
        merge_chain(ns, seq![(a, parent), (c, child)]).1 is None,
        merge_chain(ns, seq![(a, parent), (c, child)]).0.exported.contains_key(z),
        merge_chain(ns, seq![(a, parent), (c, child)]).0.exported[z] == v2,
{
    let docs = seq![(a, parent), (c, child)];
    lemma_literal_def(ns, false, z, v1);
    let ns1 = bind(ns, false, z, v1);
    lemma_literal_def(ns1, false, z, v2);
    let ns2 = bind(ns1, false, z, v2);
    let rest = docs.drop_first();
    assert(rest =~= seq![(c, child)]);
    assert(rest.drop_first() =~= Seq::<(Seq<char>, DocModel)>::empty());
    assert(merge_chain(ns2, rest.drop_first()) == (ns2, None::<(Seq<char>, Seq<Seq<char>>)>));
    assert(rest[0] == (c, child));
    assert(merge_chain(ns1, rest) == (ns2, None::<(Seq<char>, Seq<Seq<char>>)>));
    assert(docs[0] == (a, parent));
    assert(ns2.exported == ns.exported.insert(z, v1).insert(z, v2));
}


/// Fixpoint resolution across documents: a descendant's definition whose
/// value refers to a variable that an ancestor defined resolves to that
/// variable's value, and both are exported.
pub proof fn lemma_reference_to_ancestor(
    ns: NsModel,
    a: Seq<char>,
    c: Seq<char>,
    parent: DocModel,
    child: DocModel,
    x: Seq<char>,
    y: Seq<char>,
    v: Seq<char>,
)
    requires
        parent.variables == seq![lit_def(false, x, v)],
        child.variables == seq![
            VarDef {
                internal: false,
                name: seq![Fragment::Literal(y)],
                value: seq![Fragment::Reference(x)],
            },
        ],
    ensures
        merge_chain(ns, seq![(a, parent), (c, child)]).1 is None,
        merge_chain(ns, seq![(a, parent), (c, child)]).0.exported == ns.exported.insert(
            x,
            v,
        ).insert(y, v),
{
    let docs = seq![(a, parent), (c, child)];
    lemma_literal_def(ns, false, x, v);
    let ns1 = bind(ns, false, x, v);
    let d = child.variables[0];
    lemma_literal_text(y, ns1.visible);
    let fs = d.value;
    assert(fs.drop_first() =~= Seq::<Fragment>::empty());
    assert(resolve_frags(fs.drop_first(), ns1.visible) == Ok::<Seq<char>, Seq<char>>(
        Seq::empty(),
    ));
    assert(fs[0] == Fragment::Reference(x));
    assert(v + Seq::<char>::empty() =~= v);
    assert(resolve_def(d, ns1.visible) == Ok::<(Seq<char>, Seq<char>), Seq<char>>((y, v)));
    let ns2 = bind(ns1, false, y, v);
    assert(child.variables.drop_first() =~= Seq::<VarDef>::empty());
    assert(pass(ns2, child.variables.drop_first()) == (
        ns2,
        Seq::<VarDef>::empty(),
        Seq::<Seq<char>>::empty(),
    ));
    assert(pass(ns1, child.variables) == (ns2, Seq::<VarDef>::empty(), Seq::<Seq<char>>::empty()));
    assert(merge(ns2, Seq::<VarDef>::empty()) == (ns2, None::<Seq<Seq<char>>>));
    assert(merge(ns1, child.variables) == (ns2, None::<Seq<Seq<char>>>));
    let rest = docs.drop_first();
    assert(rest =~= seq![(c, child)]);
    assert(rest.drop_first() =~= Seq::<(Seq<char>, DocModel)>::empty());
    assert(merge_chain(ns2, rest.drop_first()) == (ns2, None::<(Seq<char>, Seq<Seq<char>>)>));
    assert(rest[0] == (c, child));
    assert(merge_chain(ns1, rest) == (ns2, None::<(Seq<char>, Seq<Seq<char>>)>));
    assert(docs[0] == (a, parent));
}


/// Resolution failure on a well-formed namespace: a value that refers to a
/// name that is neither an internal nor an exported variable fails the
/// merge after one pass, naming exactly that name, and leaves the namespace
/// as it was.
pub proof fn lemma_undefined_reference(ns: NsModel, internal: bool, n: Seq<char>, m: Seq<char>)
    requires
        consistent(ns),
        !ns.internal.contains_key(m),
        !ns.exported.contains_key(m),
    ensures
        merge(
            ns,
            seq![
                VarDef {
                    internal,
                    name: seq![Fragment::Literal(n)],
                    value: seq![Fragment::Reference(m)],
                },
            ],
        ) == (ns, Some(seq![m])),
{
    assert(!ns.visible.contains_key(m));
    lemma_missing_reference(ns, internal, n, m);
}

/// Shadowing at one merge: whatever the namespace held, a document that
/// defines the exported variable `z` with a literal value leaves `z` with
/// that value.
pub proof fn lemma_literal_shadows(ns: NsModel, z: Seq<char>, v: Seq<char>)
    ensures
        merge(ns, seq![lit_def(false, z, v)]).1 is None,
        merge(ns, seq![lit_def(false, z, v)]).0.exported.contains_key(z),
        merge(ns, seq![lit_def(false, z, v)]).0.exported[z] == v,
{
    lemma_literal_def(ns, false, z, v);
}


/// The definition has one literal name, and binds `nm` only as an internal
/// variable.
pub open spec fn binds_internally(d: VarDef, nm: Seq<char>) -> bool {
    &&& d.name.len() == 1
    &&& d.name[0] is Literal
    &&& d.name[0]->Literal_0 == nm ==> d.internal
}

proof fn lemma_pass_keeps_hidden(ns: NsModel, defs: Seq<VarDef>, nm: Seq<char>)
    requires
        forall|i: int| 0 <= i < defs.len() ==> binds_internally(#[trigger] defs[i], nm),
    ensures
        pass(ns, defs).0.exported.contains_key(nm) == ns.exported.contains_key(nm),
        forall|i: int|
            0 <= i < pass(ns, defs).1.len() ==> binds_internally(#[trigger] pass(ns, defs).1[i], nm),
    decreases defs.len(),
{
    if defs.len() > 0 {
        let rest = defs.drop_first();
        assert forall|i: int| 0 <= i < rest.len() implies binds_internally(#[trigger] rest[i], nm) by {
            assert(rest[i] == defs[i + 1]);
        }
        let d = defs[0];
        assert(binds_internally(d, nm));
        match resolve_def(d, ns.visible) {
            Ok((n, v)) => {
                let x = d.name[0]->Literal_0;
                assert(d.name =~= seq![Fragment::Literal(x)]);
                lemma_literal_text(x, ns.visible);
                let b = bind(ns, d.internal, n, v);
                assert(b.exported.contains_key(nm) == ns.exported.contains_key(nm));
                lemma_pass_keeps_hidden(b, rest, nm);
            },
            Err(m) => {
                lemma_pass_keeps_hidden(ns, rest, nm);
                let r = pass(ns, rest);
                assert forall|i: int| 0 <= i < (seq![d] + r.1).len() implies binds_internally(
                    #[trigger] (seq![d] + r.1)[i],
                    nm,
                ) by {
                    if i > 0 {
                        assert((seq![d] + r.1)[i] == r.1[i - 1]);
                    }
                }
            },
        }
    }
}

proof fn lemma_merge_keeps_hidden(ns: NsModel, defs: Seq<VarDef>, nm: Seq<char>)
    requires
        forall|i: int| 0 <= i < defs.len() ==> binds_internally(#[trigger] defs[i], nm),
    ensures
        merge(ns, defs).0.exported.contains_key(nm) == ns.exported.contains_key(nm),
    decreases defs.len(),
{
    if defs.len() > 0 {
        lemma_pass_keeps_hidden(ns, defs, nm);
        let (ns2, rest, miss) = pass(ns, defs);
        if rest.len() < defs.len() {
            lemma_merge_keeps_hidden(ns2, rest, nm);
        }
    }
}

/// Internal and exported variables stay apart across a whole chain: when
/// every document defines `nm` only as an internal variable (others may
/// refer to it), `nm` becomes no exported variable, so no export statement
/// names it.
pub proof fn lemma_internal_name_never_exported(
    ns: NsModel,
    docs: Seq<(Seq<char>, DocModel)>,
    nm: Seq<char>,
)
    requires
        forall|j: int, i: int|
            0 <= j < docs.len() && 0 <= i < docs[j].1.variables.len() ==> binds_internally(
                #[trigger] docs[j].1.variables[i],
                nm,
            ),
    ensures
        merge_chain(ns, docs).0.exported.contains_key(nm) == ns.exported.contains_key(nm),
    decreases docs.len(),
{
    if docs.len() > 0 {
        let defs = docs[0].1.variables;
        assert forall|i: int| 0 <= i < defs.len() implies binds_internally(#[trigger] defs[i], nm) by {
            assert(docs[0].1.variables[i] == defs[i]);
        }
        lemma_merge_keeps_hidden(ns, defs, nm);
        let (ns2, e) = merge(ns, defs);
        if e is None {
            let rest = docs.drop_first();
            assert forall|j: int, i: int|
                0 <= j < rest.len() && 0 <= i < rest[j].1.variables.len() implies binds_internally(
                #[trigger] rest[j].1.variables[i],
                nm,
            ) by {
                assert(rest[j] == docs[j + 1]);
            }
            lemma_internal_name_never_exported(ns2, rest, nm);
        }
    }
}

} // verus!
