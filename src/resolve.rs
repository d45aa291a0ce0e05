use vstd::prelude::*;

use crate::parser::{DocModel, DrivenFile, DrivenVar, Fragment, StringPart, StringRef, VarDef};
use crate::varmap::VarMap;

verus! {

/// The namespace that resolution builds: internal variables, exported
/// variables, and every variable visible to references, where a name takes
/// the value that was stored last under it.
pub struct NsModel {
    pub internal: Map<Seq<char>, Seq<char>>,
    pub exported: Map<Seq<char>, Seq<char>>,
    pub visible: Map<Seq<char>, Seq<char>>,
}

pub open spec fn empty_ns() -> NsModel {
    NsModel { internal: Map::empty(), exported: Map::empty(), visible: Map::empty() }
}

/// The text of a string value once each reference is looked up in `env`; or
/// the first referenced name that `env` lacks.
pub open spec fn resolve_frags(fs: Seq<Fragment>, env: Map<Seq<char>, Seq<char>>) -> Result<
    Seq<char>,
    Seq<char>,
>
    decreases fs.len(),
{
    if fs.len() == 0 {
        Ok(Seq::empty())
    } else {
        let head = match fs[0] {
            Fragment::Literal(t) => Ok(t),
            Fragment::Reference(n) => if env.contains_key(n) {
                Ok(env[n])
            } else {
                Err(n)
            },
        };
        match head {
            Err(m) => Err(m),
            Ok(t) => match resolve_frags(fs.drop_first(), env) {
                Ok(r) => Ok(t + r),
                Err(m) => Err(m),
            },
        }
    }
}

/// The resolved name and value of a definition, or the first missing name.
pub open spec fn resolve_def(d: VarDef, env: Map<Seq<char>, Seq<char>>) -> Result<
    (Seq<char>, Seq<char>),
    Seq<char>,
> {
    match resolve_frags(d.name, env) {
        Err(m) => Err(m),
        Ok(n) => match resolve_frags(d.value, env) {
            Err(m) => Err(m),
            Ok(v) => Ok((n, v)),
        },
    }
}

/// `ns` with `n` bound to `v`, as an internal or an exported variable.
pub open spec fn bind(ns: NsModel, internal: bool, n: Seq<char>, v: Seq<char>) -> NsModel {
    NsModel {
        internal: if internal {
            ns.internal.insert(n, v)
        } else {
            ns.internal
        },
        exported: if internal {
            ns.exported
        } else {
            ns.exported.insert(n, v)
        },
        visible: ns.visible.insert(n, v),
    }
}

/// One pass over the pending definitions, in order, each seeing what the
/// ones before it bound: the namespace after it, the definitions still
/// pending and the name each of them misses.
pub open spec fn pass(ns: NsModel, defs: Seq<VarDef>) -> (NsModel, Seq<VarDef>, Seq<Seq<char>>)
    decreases defs.len(),
{
    if defs.len() == 0 {
        (ns, Seq::empty(), Seq::empty())
    } else {
        match resolve_def(defs[0], ns.visible) {
            Ok((n, v)) => pass(bind(ns, defs[0].internal, n, v), defs.drop_first()),
            Err(m) => {
                let (ns2, rest, miss) = pass(ns, defs.drop_first());
                (ns2, seq![defs[0]] + rest, seq![m] + miss)
            },
        }
    }
}

/// Passes repeat until nothing is pending, or a pass resolves nothing: then
/// the missing names of that pass come back.
pub open spec fn merge(ns: NsModel, defs: Seq<VarDef>) -> (NsModel, Option<Seq<Seq<char>>>)
    decreases defs.len(),
{
    if defs.len() == 0 {
        (ns, None)
    } else {
        let (ns2, rest, miss) = pass(ns, defs);
        if rest.len() < defs.len() {
            merge(ns2, rest)
        } else {
            (ns2, Some(miss))
        }
    }
}

/// Names joined with `, `.
pub open spec fn join(names: Seq<Seq<char>>) -> Seq<char>
    decreases names.len(),
{
    if names.len() == 0 {
        Seq::empty()
    } else if names.len() == 1 {
        names[0]
    } else {
        join(names.drop_last()) + ", "@ + names.last()
    }
}

pub open spec fn unresolved_message(names: Seq<Seq<char>>) -> Seq<char> {
    "could not resolve variables: "@ + join(names)
}

/// The visible names are the internal and the exported ones, and each
/// visible value is the internal or the exported value of its name.
pub open spec fn consistent(ns: NsModel) -> bool {
    &&& forall|k: Seq<char>|
        #[trigger] ns.visible.contains_key(k) <==> (ns.internal.contains_key(k)
            || ns.exported.contains_key(k))
    &&& forall|k: Seq<char>|
        #[trigger] ns.visible.contains_key(k) ==> (ns.internal.contains_key(k)
            && ns.visible[k] == ns.internal[k]) || (ns.exported.contains_key(k) && ns.visible[k]
            == ns.exported[k])
}

pub proof fn lemma_bind_consistent(ns: NsModel, internal: bool, n: Seq<char>, v: Seq<char>)
    requires
        consistent(ns),
    ensures
        consistent(bind(ns, internal, n, v)),
{
    let b = bind(ns, internal, n, v);
    assert forall|k: Seq<char>| #[trigger] b.visible.contains_key(k) implies (b.internal.contains_key(k)
        && b.visible[k] == b.internal[k]) || (b.exported.contains_key(k) && b.visible[k]
        == b.exported[k]) by {
        if k != n {
            assert(ns.visible.contains_key(k));
        }
    }
}

/// The resolved variables of a directory chain.
#[derive(Debug, PartialEq, Eq, Clone)]
pub struct VisitResult {
    internal_vars: VarMap,
    vars: VarMap,
    visible: VarMap,
}

impl View for VisitResult {
    type V = NsModel;

    closed spec fn view(&self) -> NsModel {
        NsModel { internal: self.internal_vars@, exported: self.vars@, visible: self.visible@ }
    }
}

pub open spec fn text_of(r: Result<String, String>) -> Result<Seq<char>, Seq<char>> {
    match r {
        Ok(t) => Ok(t@),
        Err(m) => Err(m@),
    }
}

pub open spec fn prepend_text(pre: Seq<char>, r: Result<Seq<char>, Seq<char>>) -> Result<
    Seq<char>,
    Seq<char>,
> {
    match r {
        Ok(t) => Ok(pre + t),
        Err(m) => Err(m),
    }
}

pub open spec fn defs_at(vars: Seq<DrivenVar>, idx: Seq<usize>) -> Seq<VarDef> {
    idx.map_values(|j: usize| vars[j as int]@)
}

pub open spec fn after_pass(
    rest: Seq<VarDef>,
    miss: Seq<Seq<char>>,
    r: (NsModel, Seq<VarDef>, Seq<Seq<char>>),
) -> (NsModel, Seq<VarDef>, Seq<Seq<char>>) {
    (r.0, rest + r.1, miss + r.2)
}

proof fn lemma_pass_shape(ns: NsModel, defs: Seq<VarDef>)
    ensures
        pass(ns, defs).1.len() == pass(ns, defs).2.len(),
        pass(ns, defs).1.len() <= defs.len(),
    decreases defs.len(),
{
    if defs.len() > 0 {
        let r = resolve_def(defs[0], ns.visible);
        if let Ok((n, v)) = r {
            lemma_pass_shape(bind(ns, defs[0].internal, n, v), defs.drop_first());
        } else {
            lemma_pass_shape(ns, defs.drop_first());
        }
    }
}

impl VisitResult {
    pub closed spec fn wf(&self) -> bool {
        &&& self.internal_vars.wf()
        &&& self.vars.wf()
        &&& self.visible.wf()
        &&& consistent(self@)
    }

    /// A well-formed result's visible variables are its internal and its
    /// exported ones.
    pub proof fn lemma_consistent(&self)
        requires
            self.wf(),
        ensures
            consistent(self@),
    {
    }

    pub fn new() -> (r: VisitResult)
        ensures
            r.wf(),
            r@ == empty_ns(),
    {
        let r = VisitResult {
            internal_vars: VarMap::new(),
            vars: VarMap::new(),
            visible: VarMap::new(),
        };
        assert(consistent(r@));
        r
    }

    /// The internal variables.
    pub fn internal_vars(&self) -> (r: &VarMap)
        requires
            self.wf(),
        ensures
            r.wf(),
            r@ == self@.internal,
    {
        &self.internal_vars
    }

    /// The exported variables.
    pub fn vars(&self) -> (r: &VarMap)
        requires
            self.wf(),
        ensures
            r.wf(),
            r@ == self@.exported,
    {
        &self.vars
    }

    /// The text of `fs` with each reference looked up among the visible
    /// variables; or the first referenced name that none holds.
    pub fn resolve(&self, fs: &StringRef) -> (r: Result<String, String>)
        ensures
            text_of(r) == resolve_frags(fs@, self@.visible),
    {
        let mut acc = String::new();
        let mut i: usize = 0;
        proof {
            assert(fs@.skip(0) =~= fs@);
            if let Ok(t) = resolve_frags(fs@, self@.visible) {
                assert(acc@ + t =~= t);
            }
        }
        while i < fs.parts.len()
            invariant
                i <= fs.parts.len(),
                resolve_frags(fs@, self@.visible) == prepend_text(
                    acc@,
                    resolve_frags(fs@.skip(i as int), self@.visible),
                ),
            decreases fs.parts.len() - i,
        {
            proof {
                assert(fs@.skip(i as int).drop_first() =~= fs@.skip(i + 1));
                assert(fs@.skip(i as int)[0] == fs.parts@[i as int]@);
            }
            match &fs.parts[i] {
                StringPart::Literal(t) => {
                    proof {
                        let r = resolve_frags(fs@.skip(i + 1), self@.visible);
                        if let Ok(x) = r {
                            assert(acc@ + (t@ + x) =~= (acc@ + t@) + x);
                        }
                    }
                    acc.append(t.as_str());
                },
                StringPart::Variable(n) => match self.visible.get(n) {
                    Some(v) => {
                        proof {
                            let r = resolve_frags(fs@.skip(i + 1), self@.visible);
                            if let Ok(x) = r {
                                assert(acc@ + (v@ + x) =~= (acc@ + v@) + x);
                            }
                        }
                        acc.append(v.as_str());
                    },
                    None => {
                        return Err(n.clone());
                    },
                },
            }
            i = i + 1;
        }
        proof {
            assert(acc@ + Seq::<char>::empty() =~= acc@);
        }
        Ok(acc)
    }

    fn resolve_var(&self, d: &DrivenVar) -> (r: Result<(String, String), String>)
        ensures
            match r {
                Ok((n, v)) => resolve_def(d@, self@.visible) == Ok::<
                    (Seq<char>, Seq<char>),
                    Seq<char>,
                >((n@, v@)),
                Err(m) => resolve_def(d@, self@.visible) == Err::<
                    (Seq<char>, Seq<char>),
                    Seq<char>,
                >(m@),
            },
    {
        let n = match self.resolve(&d.name) {
            Ok(n) => n,
            Err(m) => {
                return Err(m);
            },
        };
        let v = match self.resolve(&d.value) {
            Ok(v) => v,
            Err(m) => {
                return Err(m);
            },
        };
        Ok((n, v))
    }

    fn bind(&mut self, internal: bool, n: String, v: String)
        requires
            old(self).wf(),
        ensures
            final(self).wf(),
            final(self)@ == bind(old(self)@, internal, n@, v@),
    {
        proof {
            lemma_bind_consistent(old(self)@, internal, n@, v@);
        }
        self.visible.insert(n.clone(), v.clone());
        if internal {
            self.internal_vars.insert(n, v);
        } else {
            self.vars.insert(n, v);
        }
    }
}


pub open spec fn texts(v: Seq<String>) -> Seq<Seq<char>> {
    v.map_values(|s: String| s@)
}

fn join_names(names: &Vec<String>) -> (r: String)
    ensures
        r@ == join(texts(names@)),
{
    let mut r = String::new();
    let mut i: usize = 0;
    while i < names.len()
        invariant
            i <= names.len(),
            r@ == join(texts(names@).take(i as int)),
        decreases names.len() - i,
    {
        let ghost ts = texts(names@);
        proof {
            assert(ts.take(i + 1).drop_last() =~= ts.take(i as int));
        }
        if i > 0 {
            r.append(", ");
        } else {
            assert(r@ + names@[0]@ =~= names@[0]@);
        }
        r.append(names[i].as_str());
        i = i + 1;
    }
    proof {
        assert(texts(names@).take(names.len() as int) =~= texts(names@));
    }
    r
}

impl VisitResult {
    /// Merges the definitions of one file: passes over the pending ones until
    /// none is left, or a pass resolves none, which fails with the names that
    /// were missing in that pass.
    pub fn add_file(&mut self, file: &DrivenFile) -> (r: Result<(), String>)
        requires
            old(self).wf(),
        ensures
            final(self).wf(),
            final(self)@ == merge(old(self)@, file@.variables).0,
            match merge(old(self)@, file@.variables).1 {
                None => r is Ok,
                Some(miss) => r is Err && r->Err_0@ == unresolved_message(miss),
            },
    {
        let ghost vars = file.variables@;
        let mut pending: Vec<usize> = Vec::new();
        let mut k: usize = 0;
        while k < file.variables.len()
            invariant
                k <= file.variables.len(),
                pending@.len() == k,
                forall|j: int| 0 <= j < k ==> pending@[j] == j,
            decreases file.variables.len() - k,
        {
            pending.push(k);
            k = k + 1;
        }
        proof {
            assert(defs_at(vars, pending@) =~= file@.variables);
        }
        loop
            invariant
                self.wf(),
                vars == file.variables@,
                forall|j: int| 0 <= j < pending.len() ==> pending@[j] < vars.len(),
                merge(old(self)@, file@.variables) == merge(self@, defs_at(vars, pending@)),
            decreases pending.len(),
        {
            if pending.len() == 0 {
                return Ok(());
            }
            let ghost ns0 = self@;
            let ghost defs = defs_at(vars, pending@);
            let mut next: Vec<usize> = Vec::new();
            let mut missing: Vec<String> = Vec::new();
            let mut i: usize = 0;
            proof {
                assert(defs.skip(0) =~= defs);
                assert(defs_at(vars, next@) + pass(ns0, defs).1 =~= pass(ns0, defs).1);
                assert(texts(missing@) + pass(ns0, defs).2 =~= pass(ns0, defs).2);
            }
            while i < pending.len()
                invariant
                    self.wf(),
                    vars == file.variables@,
                    i <= pending.len(),
                    defs == defs_at(vars, pending@),
                    forall|j: int| 0 <= j < pending.len() ==> pending@[j] < vars.len(),
                    forall|j: int| 0 <= j < next.len() ==> next@[j] < vars.len(),
                    pass(ns0, defs) == after_pass(
                        defs_at(vars, next@),
                        texts(missing@),
                        pass(self@, defs.skip(i as int)),
                    ),
                decreases pending.len() - i,
            {
                let j = pending[i];
                let d = &file.variables[j];
                proof {
                    assert(defs.skip(i as int).drop_first() =~= defs.skip(i + 1));
                    assert(defs.skip(i as int)[0] == d@);
                }
                match self.resolve_var(d) {
                    Ok((n, v)) => {
                        self.bind(d.internal, n, v);
                    },
                    Err(m) => {
                        proof {
                            let r = pass(self@, defs.skip(i + 1));
                            assert(defs_at(vars, next@) + (seq![d@] + r.1) =~= defs_at(
                                vars,
                                next@.push(j),
                            ) + r.1);
                            assert(texts(missing@) + (seq![m@] + r.2) =~= texts(missing@.push(m))
                                + r.2);
                        }
                        next.push(j);
                        missing.push(m);
                    },
                }
                i = i + 1;
            }
            proof {
                assert(defs.skip(pending.len() as int) =~= Seq::<VarDef>::empty());
                assert(defs_at(vars, next@) + Seq::<VarDef>::empty() =~= defs_at(vars, next@));
                assert(texts(missing@) + Seq::<Seq<char>>::empty() =~= texts(missing@));
                lemma_pass_shape(ns0, defs);
            }
            if next.len() == pending.len() {
                let mut msg = String::from_str("could not resolve variables: ");
                msg.append(join_names(&missing).as_str());
                return Err(msg);
            }
            pending = next;
        }
    }
}


/// The files found by a walk, as `(directory, document)` views.
pub open spec fn found_view(found: Seq<(String, DrivenFile)>) -> Seq<(Seq<char>, DocModel)> {
    found.map_values(|e: (String, DrivenFile)| (e.0@, e.1@))
}

/// The entries of `s` whose directory no earlier entry has, in order.
pub open spec fn first_visits(s: Seq<(Seq<char>, DocModel)>) -> Seq<(Seq<char>, DocModel)>
    decreases s.len(),
{
    if s.len() == 0 {
        Seq::empty()
    } else {
        let prev = first_visits(s.drop_last());
        if exists|i: int| 0 <= i < s.len() - 1 && s[i].0 == s.last().0 {
            prev
        } else {
            prev.push(s.last())
        }
    }
}

/// The files of a walk, found deepest first, in the order of resolution: the
/// root first, each directory once.
pub open spec fn root_first(found: Seq<(Seq<char>, DocModel)>) -> Seq<(Seq<char>, DocModel)> {
    first_visits(found.reverse())
}

/// The documents merged one after the other; the first that fails stops the
/// chain, with its directory and missing names.
pub open spec fn merge_chain(ns: NsModel, docs: Seq<(Seq<char>, DocModel)>) -> (
    NsModel,
    Option<(Seq<char>, Seq<Seq<char>>)>,
)
    decreases docs.len(),
{
    if docs.len() == 0 {
        (ns, None)
    } else {
        let (ns2, e) = merge(ns, docs[0].1.variables);
        match e {
            Some(miss) => (ns2, Some((docs[0].0, miss))),
            None => merge_chain(ns2, docs.drop_first()),
        }
    }
}

pub open spec fn chain_message(dir: Seq<char>, miss: Seq<Seq<char>>) -> Seq<char> {
    "error parsing drivenfile "@ + dir + ": "@ + unresolved_message(miss)
}

/// Resolves the files that a walk found, deepest first: root first, each
/// directory once.
pub fn resolve_chain(found: &Vec<(String, DrivenFile)>) -> (r: Result<VisitResult, String>)
    ensures
        ({
            let (ns, e) = merge_chain(empty_ns(), root_first(found_view(found@)));
            match e {
                None => r is Ok && r->Ok_0@ == ns && r->Ok_0.wf(),
                Some((dir, miss)) => r is Err && r->Err_0@ == chain_message(dir, miss),
            }
        }),
{
    let ghost fv = found_view(found@);
    let ghost rev = fv.reverse();
    let n = found.len();
    // the indices of the entries to resolve, in order
    let mut kept: Vec<usize> = Vec::new();
    let mut t: usize = 0;
    while t < n
        invariant
            n == found.len(),
            fv == found_view(found@),
            rev == fv.reverse(),
            t <= n,
            forall|j: int| 0 <= j < kept.len() ==> kept@[j] < n,
            kept@.map_values(|j: usize| fv[j as int]) == first_visits(rev.take(t as int)),
        decreases n - t,
    {
        let here = n - 1 - t;
        let mut seen = false;
        let mut i: usize = 0;
        while i < t
            invariant
                n == found.len(),
                fv == found_view(found@),
                rev == fv.reverse(),
                t < n,
                here == n - 1 - t,
                i <= t,
                seen <==> exists|q: int| 0 <= q < i && rev[q].0 == rev[t as int].0,
            decreases t - i,
        {
            proof {
                assert(rev[i as int] == fv[n - 1 - i]);
                assert(rev[t as int] == fv[here as int]);
            }
            if found[n - 1 - i].0 == found[here].0 {
                seen = true;
            }
            i = i + 1;
        }
        proof {
            let s = rev.take(t + 1);
            assert(s.drop_last() =~= rev.take(t as int));
            assert(s.last() == rev[t as int]);
            assert((exists|q: int| 0 <= q < s.len() - 1 && s[q].0 == s.last().0) == seen) by {
                if seen {
                    let q = choose|q: int| 0 <= q < t && rev[q].0 == rev[t as int].0;
                    assert(s[q] == rev[q]);
                }
            }
        }
        if !seen {
            proof {
                assert(kept@.push(here).map_values(|j: usize| fv[j as int]) =~= kept@.map_values(
                    |j: usize| fv[j as int],
                ).push(rev[t as int]));
            }
            kept.push(here);
        }
        t = t + 1;
    }
    proof {
        assert(rev.take(n as int) =~= rev);
    }
    let ghost docs = kept@.map_values(|j: usize| fv[j as int]);
    let mut res = VisitResult::new();
    let mut m: usize = 0;
    proof {
        assert(docs.skip(0) =~= docs);
    }
    while m < kept.len()
        invariant
            res.wf(),
            fv == found_view(found@),
            docs == kept@.map_values(|j: usize| fv[j as int]),
            docs == root_first(fv),
            forall|j: int| 0 <= j < kept.len() ==> kept@[j] < found.len(),
            m <= kept.len(),
            merge_chain(empty_ns(), docs) == merge_chain(res@, docs.skip(m as int)),
        decreases kept.len() - m,
    {
        let j = kept[m];
        proof {
            assert(docs.skip(m as int).drop_first() =~= docs.skip(m + 1));
            assert(docs.skip(m as int)[0] == (found@[j as int].0@, found@[j as int].1@));
        }
        match res.add_file(&found[j].1) {
            Ok(()) => {},
            Err(e) => {
                let mut msg = String::from_str("error parsing drivenfile ");
                msg.append(found[j].0.as_str());
                msg.append(": ");
                msg.append(e.as_str());
                return Err(msg);
            },
        }
        m = m + 1;
    }
    proof {
        assert(docs.skip(kept.len() as int) =~= Seq::<(Seq<char>, DocModel)>::empty());
    }
    Ok(res)
}

} // verus!
