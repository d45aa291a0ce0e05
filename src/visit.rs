use vstd::prelude::*;

use crate::parser::{DocModel, DrivenFile};
use crate::resolve::{
    chain_message, empty_ns, found_view, merge_chain, resolve_chain, root_first,
};
use crate::shells::{export_line, Shell};
use crate::varmap::lex_lt;

verus! {

/// The walk from a start directory up towards the root: the directories
/// still to look in, and the files found so far, deepest first.
pub struct Walk {
    pending: Vec<String>,
    found: Vec<(String, DrivenFile)>,
}

impl Walk {
    /// The directories still to look in; the last is looked in next.
    pub closed spec fn pending(&self) -> Seq<Seq<char>> {
        self.pending@.map_values(|d: String| d@)
    }

    /// The files found so far, in the order they were found.
    pub closed spec fn found(&self) -> Seq<(Seq<char>, DocModel)> {
        found_view(self.found@)
    }

    /// A walk that starts in `start`, a canonical directory path.
    pub fn new(start: String) -> (r: Walk)
        ensures
            r.pending() == seq![start@],
            r.found() == Seq::<(Seq<char>, DocModel)>::empty(),
    {
        let r = Walk { pending: vec![start], found: Vec::new() };
        proof {
            assert(r.pending() =~= seq![start@]);
            assert(r.found() =~= Seq::<(Seq<char>, DocModel)>::empty());
        }
        r
    }

    /// The next directory to look in, taken off the work list; `None` once
    /// the walk is over.
    pub fn next_dir(&mut self) -> (r: Option<String>)
        ensures
            final(self).found() == old(self).found(),
            old(self).pending().len() == 0 ==> r is None && final(self).pending() == old(
                self,
            ).pending(),
            old(self).pending().len() > 0 ==> r is Some && r->Some_0@ == old(self).pending().last()
                && final(self).pending() == old(self).pending().drop_last(),
    {
        let r = self.pending.pop();
        proof {
            if old(self).pending().len() > 0 {
                assert(self.pending() =~= old(self).pending().drop_last());
            }
        }
        r
    }

    /// Records what looking in `dir` gave: its parsed file, if it has one,
    /// and its parent directory, if it is not the root. The parent is looked
    /// in later unless the file asks to ignore parents.
    pub fn record(&mut self, dir: String, parent: Option<String>, doc: Option<DrivenFile>)
        ensures
            final(self).found() == match doc {
                Some(d) => old(self).found().push((dir@, d@)),
                None => old(self).found(),
            },
            final(self).pending() == match parent {
                Some(p) => if doc is Some && doc->Some_0.ignore_parents {
                    old(self).pending()
                } else {
                    old(self).pending().push(p@)
                },
                None => old(self).pending(),
            },
    {
        let climb = match &doc {
            Some(d) => !d.ignore_parents,
            None => true,
        };
        match parent {
            Some(p) => {
                if climb {
                    self.pending.push(p);
                    proof {
                        assert(self.pending() =~= old(self).pending().push(p@));
                    }
                }
            },
            None => {},
        }
        match doc {
            Some(d) => {
                self.found.push((dir, d));
                proof {
                    assert(self.found() =~= old(self).found().push((dir@, d@)));
                }
            },
            None => {},
        }
    }

    /// The files found, deepest first.
    pub fn found_files(&self) -> (r: &Vec<(String, DrivenFile)>)
        ensures
            found_view(r@) == self.found(),
    {
        &self.found
    }
}

/// The export lines of `m`, in ascending order of names, each name once.
pub open spec fn exports_in_order(m: Map<Seq<char>, Seq<char>>, lines: Seq<Seq<char>>) -> bool {
    exists|es: Seq<(Seq<char>, Seq<char>)>|
        {
            &&& es.len() == lines.len()
            &&& forall|i: int, j: int| 0 <= i < j < es.len() ==> lex_lt(es[i].0, es[j].0)
            &&& forall|i: int| 0 <= i < es.len() ==> #[trigger] m.contains_key(es[i].0) && m[es[i].0]
                == es[i].1
            &&& forall|k: Seq<char>| #[trigger] m.contains_key(k) ==> exists|i: int|
                0 <= i < es.len() && es[i].0 == k
            &&& forall|i: int| 0 <= i < lines.len() ==> #[trigger] lines[i] == export_line(
                es[i].0,
                es[i].1,
            )
        }
}

/// Resolves the files that a walk found, deepest first, and gives the export
/// statement of each exported variable, in ascending order of names.
pub fn visit<S: Shell>(shell: &S, found: &Vec<(String, DrivenFile)>) -> (r: Result<
    Vec<String>,
    String,
>)
    ensures
        ({
            let (ns, e) = merge_chain(empty_ns(), root_first(found_view(found@)));
            match e {
                None => r is Ok && exports_in_order(
                    ns.exported,
                    r->Ok_0@.map_values(|l: String| l@),
                ),
                Some((dir, miss)) => r is Err && r->Err_0@ == chain_message(dir, miss),
            }
        }),
{
    let res = match resolve_chain(found) {
        Ok(res) => res,
        Err(e) => {
            return Err(e);
        },
    };
    let entries = res.vars().entries();
    let ghost es = entries@.map_values(|e: (String, String)| (e.0@, e.1@));
    let mut lines: Vec<String> = Vec::new();
    let mut i: usize = 0;
    while i < entries.len()
        invariant
            i <= entries.len(),
            lines.len() == i,
            es == entries@.map_values(|e: (String, String)| (e.0@, e.1@)),
            forall|j: int| 0 <= j < i ==> #[trigger] lines@[j]@ == export_line(es[j].0, es[j].1),
        decreases entries.len() - i,
    {
        lines.push(shell.export_var(entries[i].0.as_str(), entries[i].1.as_str()));
        i = i + 1;
    }
    proof {
        let ls = lines@.map_values(|l: String| l@);
        let m = res@.exported;
        assert forall|k: Seq<char>| #[trigger] m.contains_key(k) implies exists|i: int|
            0 <= i < es.len() && es[i].0 == k by {
            let i = choose|i: int| 0 <= i < entries.len() && entries@[i].0@ == k;
            assert(es[i].0 == k);
        }
        assert forall|i: int| 0 <= i < es.len() implies #[trigger] m.contains_key(es[i].0)
            && m[es[i].0] == es[i].1 by {
            assert(es[i].0 == entries@[i].0@);
        }
        assert forall|i: int, j: int| 0 <= i < j < es.len() implies lex_lt(es[i].0, es[j].0) by {
            assert(es[i].0 == entries@[i].0@ && es[j].0 == entries@[j].0@);
        }
        assert forall|i: int| 0 <= i < ls.len() implies #[trigger] ls[i] == export_line(
            es[i].0,
            es[i].1,
        ) by {
            assert(ls[i] == lines@[i]@);
        }
    }
    Ok(lines)
}

} // verus!
