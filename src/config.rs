use vstd::prelude::*;

use crate::text::chars_of;
use vstd::string::StrSliceExecFns;

verus! {

broadcast use vstd::string::group_string_axioms;

/// Metadata that tells whether the top configuration file changed since it
/// was last resolved.
#[derive(Debug, PartialEq, Eq)]
pub enum FileModifiedCheck {
    MtimeAndSize((u64, u64)),
    MD5Sum(String),
}

/// A staleness check, as contracts see it.
pub enum CheckModel {
    MtimeAndSize(u64, u64),
    Digest(Seq<char>),
}

impl View for FileModifiedCheck {
    type V = CheckModel;

    open spec fn view(&self) -> CheckModel {
        match self {
            FileModifiedCheck::MtimeAndSize((m, s)) => CheckModel::MtimeAndSize(*m, *s),
            FileModifiedCheck::MD5Sum(d) => CheckModel::Digest(d@),
        }
    }
}

/// Why a staleness descriptor could not be read.
#[derive(Debug, PartialEq, Eq, Clone, Copy)]
pub enum ModcheckError {
    /// The modification time and size are not two numbers split by one space.
    MalformedMtime,
    /// The descriptor starts with a tag that is not known.
    UnknownPrefix,
}

/// The value of a run of decimal digits.
pub open spec fn decimal(d: Seq<char>) -> int
    decreases d.len(),
{
    if d.len() == 0 {
        0
    } else {
        decimal(d.drop_last()) * 10 + (d.last() as int - '0' as int)
    }
}

pub open spec fn all_digits(d: Seq<char>) -> bool {
    forall|k: int| 0 <= k < d.len() ==> '0' <= #[trigger] d[k] <= '9'
}

/// The number that `u64`'s `from_str` reads: an optional `+`, then one or
/// more decimal digits, whose value fits.
pub open spec fn u64_of(d: Seq<char>) -> Option<u64> {
    let body = if d.len() > 0 && d[0] == '+' {
        d.drop_first()
    } else {
        d
    };
    if body.len() > 0 && all_digits(body) && decimal(body) <= u64::MAX {
        Some(decimal(body) as u64)
    } else {
        None
    }
}

/// The pieces of `s` between single spaces, as `split(" ")` gives them.
pub open spec fn fields(s: Seq<char>) -> Seq<Seq<char>>
    decreases s.len(),
{
    if s.len() == 0 {
        seq![Seq::empty()]
    } else {
        let f = fields(s.drop_last());
        if s.last() == ' ' {
            f.push(Seq::empty())
        } else {
            f.update(f.len() - 1, f.last().push(s.last()))
        }
    }
}

/// A staleness descriptor: empty for none; `1` then a modification time and
/// a size split by one space; `2` then a content digest.
pub open spec fn modcheck(s: Seq<char>) -> Result<Option<CheckModel>, ModcheckError> {
    if s.len() == 0 {
        Ok(None)
    } else if s[0] == '1' {
        let parts = fields(s.drop_first());
        if parts.len() == 2 && u64_of(parts[0]) is Some && u64_of(parts[1]) is Some {
            Ok(Some(CheckModel::MtimeAndSize(u64_of(parts[0])->Some_0, u64_of(parts[1])->Some_0)))
        } else {
            Err(ModcheckError::MalformedMtime)
        }
    } else if s[0] == '2' {
        Ok(Some(CheckModel::Digest(s.drop_first())))
    } else {
        Err(ModcheckError::UnknownPrefix)
    }
}

proof fn lemma_decimal_prefix(d: Seq<char>, i: int)
    requires
        all_digits(d),
        0 <= i <= d.len(),
    ensures
        decimal(d.take(i)) <= decimal(d),
    decreases d.len(),
{
    if i < d.len() {
        let p = d.drop_last();
        assert(p.take(i) =~= d.take(i));
        assert forall|k: int| 0 <= k < p.len() implies '0' <= #[trigger] p[k] <= '9' by {
            assert(p[k] == d[k]);
        }
        lemma_decimal_prefix(p, i);
        lemma_decimal_nonneg(p);
    } else {
        assert(d.take(i) =~= d);
    }
}

proof fn lemma_decimal_nonneg(d: Seq<char>)
    requires
        all_digits(d),
    ensures
        decimal(d) >= 0,
    decreases d.len(),
{
    if d.len() > 0 {
        let p = d.drop_last();
        assert forall|k: int| 0 <= k < p.len() implies '0' <= #[trigger] p[k] <= '9' by {
            assert(p[k] == d[k]);
        }
        lemma_decimal_nonneg(p);
    }
}

/// Reads a number as `u64`'s `from_str` does.
pub fn parse_u64(d: &Vec<char>) -> (r: Option<u64>)
    ensures
        r == u64_of(d@),
{
    let start: usize = if d.len() > 0 && d[0] == '+' {
        1
    } else {
        0
    };
    let ghost body = d@.subrange(start as int, d@.len() as int);
    proof {
        if start == 1 {
            assert(body =~= d@.drop_first());
        } else {
            assert(body =~= d@);
        }
    }
    if start == d.len() {
        return None;
    }
    let mut v: u64 = 0;
    let mut i: usize = start;
    while i < d.len()
        invariant
            start <= i <= d.len(),
            body == d@.subrange(start as int, d@.len() as int),
            body == if d@.len() > 0 && d@[0] == '+' {
                d@.drop_first()
            } else {
                d@
            },
            all_digits(body.take(i - start)),
            v == decimal(body.take(i - start)),
        decreases d.len() - i,
    {
        let c = d[i];
        let ghost t = body.take(i + 1 - start);
        proof {
            assert(t.drop_last() =~= body.take(i - start));
            assert(t.last() == c);
        }
        if !('0' <= c && c <= '9') {
            assert(body[i - start] == c);
            return None;
        }
        let dig = (c as u32 - '0' as u32) as u64;
        proof {
            assert forall|k: int| 0 <= k < t.len() implies '0' <= #[trigger] t[k] <= '9' by {
                if k < t.len() - 1 {
                    assert(t[k] == body.take(i - start)[k]);
                }
            }
            assert(decimal(t) == v * 10 + dig);
        }
        let next = match v.checked_mul(10) {
            Some(m) => m.checked_add(dig),
            None => None,
        };
        match next {
            Some(n) => {
                v = n;
            },
            None => {
                proof {
                    if all_digits(body) {
                        lemma_decimal_prefix(body, i + 1 - start);
                    }
                }
                return None;
            },
        }
        i = i + 1;
    }
    proof {
        assert(body.take(i - start) =~= body);
    }
    Some(v)
}

fn split_fields(s: &Vec<char>, from: usize) -> (r: Vec<Vec<char>>)
    requires
        from <= s.len(),
    ensures
        r@.map_values(|p: Vec<char>| p@) == fields(s@.subrange(from as int, s@.len() as int)),
{
    let ghost rest = s@.subrange(from as int, s@.len() as int);
    let mut done: Vec<Vec<char>> = Vec::new();
    let mut cur: Vec<char> = Vec::new();
    let mut i: usize = from;
    proof {
        assert(rest.take(0) =~= Seq::<char>::empty());
        assert(done@.map_values(|p: Vec<char>| p@).push(cur@) =~= seq![Seq::<char>::empty()]);
    }
    while i < s.len()
        invariant
            from <= i <= s.len(),
            rest == s@.subrange(from as int, s@.len() as int),
            done@.map_values(|p: Vec<char>| p@).push(cur@) == fields(rest.take(i - from)),
        decreases s.len() - i,
    {
        let c = s[i];
        let ghost t = rest.take(i + 1 - from);
        let ghost before = done@.map_values(|p: Vec<char>| p@).push(cur@);
        proof {
            assert(t.drop_last() =~= rest.take(i - from));
            assert(t.last() == c);
        }
        if c == ' ' {
            let full = cur;
            done.push(full);
            cur = Vec::new();
            proof {
                assert(done@.map_values(|p: Vec<char>| p@).push(cur@) =~= before.push(
                    Seq::<char>::empty(),
                ));
            }
        } else {
            cur.push(c);
            proof {
                assert(done@.map_values(|p: Vec<char>| p@).push(cur@) =~= before.update(
                    before.len() - 1,
                    before.last().push(c),
                ));
            }
        }
        i = i + 1;
    }
    proof {
        assert(rest.take(i - from) =~= rest);
    }
    done.push(cur);
    proof {
        assert(done@.map_values(|p: Vec<char>| p@) =~= fields(rest));
    }
    done
}

/// Reads a staleness descriptor.
pub fn parse_modcheck(s: &str) -> (r: Result<Option<FileModifiedCheck>, ModcheckError>)
    ensures
        match (r, modcheck(s@)) {
            (Ok(None), Ok(None)) => true,
            (Ok(Some(c)), Ok(Some(m))) => c@ == m,
            (Err(x), Err(y)) => x == y,
            _ => false,
        },
{
    let cs = chars_of(s);
    if cs.len() == 0 {
        Ok(None)
    } else if cs[0] == '1' {
        let parts = split_fields(&cs, 1);
        proof {
            assert(cs@.subrange(1, cs@.len() as int) =~= s@.drop_first());
        }
        if parts.len() != 2 {
            return Err(ModcheckError::MalformedMtime);
        }
        let mtime = parse_u64(&parts[0]);
        let size = parse_u64(&parts[1]);
        match (mtime, size) {
            (Some(m), Some(z)) => Ok(Some(FileModifiedCheck::MtimeAndSize((m, z)))),
            _ => Err(ModcheckError::MalformedMtime),
        }
    } else if cs[0] == '2' {
        let n = s.unicode_len();
        let digest = s.substring_char(1, n);
        proof {
            assert(digest@ =~= s@.drop_first());
        }
        Ok(Some(FileModifiedCheck::MD5Sum(String::from_str(digest))))
    } else {
        Err(ModcheckError::UnknownPrefix)
    }
}

/// What a visit may know of the last resolution: the directory of the top
/// file, and how to tell whether that file changed.
#[derive(Debug, PartialEq, Eq)]
pub struct VisitConfig {
    pub topdir: Option<String>,
    pub topdir_metadata: Option<FileModifiedCheck>,
}

impl VisitConfig {
    /// The configuration from the values of the two hint variables, either
    /// of which may be unset.
    pub fn from_values(topdir: Option<String>, modcheck_hint: Option<&str>) -> (r: Result<
        VisitConfig,
        ModcheckError,
    >)
        ensures
            match modcheck_hint {
                None => r is Ok && r->Ok_0.topdir == topdir && r->Ok_0.topdir_metadata is None,
                Some(h) => match (r, modcheck(h@)) {
                    (Ok(c), Ok(m)) => c.topdir == topdir && match (c.topdir_metadata, m) {
                        (None, None) => true,
                        (Some(x), Some(y)) => x@ == y,
                        _ => false,
                    },
                    (Err(x), Err(y)) => x == y,
                    _ => false,
                },
            },
    {
        let topdir_metadata = match modcheck_hint {
            None => None,
            Some(h) => match parse_modcheck(h) {
                Ok(m) => m,
                Err(e) => {
                    return Err(e);
                },
            },
        };
        Ok(VisitConfig { topdir, topdir_metadata })
    }
}

} // verus!
