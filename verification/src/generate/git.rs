//! Assembling a task configuration from discovered git repositories.
//!
//! Repository discovery itself reads the filesystem and the repositories, so
//! it happens at the caller's edge; this module holds the rules it applies:
//! which discovered paths are kept (none containing an excluded fragment),
//! how the per-repository configurations are ordered in the generated task
//! (by repository path), and how a generation configuration's paths are
//! expanded against the resolved environment.

use vstd::prelude::*;
use vstd::string::*;
use crate::env::EnvEntry;
use crate::env::EnvError;
use crate::env::env_map;
use crate::env::env_distinct;
use crate::env::home_view;
use crate::env::key_set;
use crate::tasks::link::first_expansion;

verus! {

/// Errors from reading a repository's remotes.
#[derive(Debug, PartialEq)]
pub enum GenerateGitError {
    /// A remote's name is not valid UTF-8.
    InvalidUTF8,
    /// A remote cannot be read.
    InvalidRemote { name: String },
}

/// One remote of a repository.
#[derive(Debug, PartialEq, Clone)]
pub struct GitRemote {
    pub name: String,
    pub url: String,
    pub push_url: Option<String>,
}

/// The configuration generated for one repository.
#[derive(Debug, PartialEq, Clone)]
pub struct GitConfig {
    pub path: String,
    pub branch: Option<String>,
    pub remotes: Vec<GitRemote>,
}

/// Where to search for repositories and what to skip.
#[derive(Debug, PartialEq, Clone)]
pub struct GenerateGitConfig {
    pub path: String,
    pub search_paths: Vec<String>,
    pub excludes: Option<Vec<String>>,
}

/// `sub` occurs contiguously in `s`.
pub open spec fn has_substring(s: Seq<char>, sub: Seq<char>) -> bool {
    exists|i: int| 0 <= i <= s.len() - sub.len() && #[trigger] s.subrange(i, i + sub.len() as int) == sub
}

/// Whether `sub` occurs in `s`.
fn contains_sub(s: &String, sub: &String) -> (r: bool)
    ensures
        r == has_substring(s@, sub@),
{
    let sl: &str = s.as_str();
    let bl: &str = sub.as_str();
    let n: usize = sl.unicode_len();
    let m1: usize = bl.unicode_len();
    if m1 > n {
        return false;
    }
    if m1 == 0 {
        proof {
            assert(has_substring(s@, sub@)) by {
                assert(0 <= 0 <= s@.len() - sub@.len()
                    && s@.subrange(0, 0 + sub@.len() as int) == sub@) by {
                    assert(s@.subrange(0, 0 + sub@.len() as int) =~= sub@);
                }
            }
        }
        return true;
    }
    let mut i: usize = 0;
    while i <= n - m1
        invariant
            n == s@.len(),
            m1 == sub@.len(),
            m1 <= n,
            1 <= m1,
            i <= n - m1 + 1,
            sl@ == s@,
            bl@ == sub@,
            forall|ii: int| 0 <= ii < i ==> #[trigger] s@.subrange(ii, ii + m1 as int) != sub@,
        decreases n - m1 - i + 1,
    {
        let mut j: usize = 0;
        let mut matched: bool = true;
        while j < m1
            invariant
                i + m1 <= n,
                n == s@.len(),
                m1 == sub@.len(),
                sl@ == s@,
                bl@ == sub@,
                j <= m1,
                matched ==> forall|jj: int| 0 <= jj < j ==> s@[i + jj] == sub@[jj],
                !matched ==> s@.subrange(i as int, i + m1 as int) != sub@,
            decreases m1 - j,
        {
            if sl.get_char(i + j) != bl.get_char(j) {
                proof {
                    assert(s@.subrange(i as int, i + m1 as int)[j as int] != sub@[j as int]);
                }
                matched = false;
            }
            j += 1;
        }
        if matched {
            proof {
                assert(s@.subrange(i as int, i + m1 as int) =~= sub@);
            }
            return true;
        }
        i += 1;
    }
    proof {
        assert forall|ii: int| 0 <= ii <= s@.len() - sub@.len()
            implies #[trigger] s@.subrange(ii, ii + sub@.len() as int) != sub@ by {
            assert(ii < i);
        }
    }
    false
}

/// A path survives an exclusion list when it contains none of its
/// fragments; with no list every path is kept.
pub open spec fn kept_path(p: Seq<char>, excludes: Option<Vec<String>>) -> bool {
    match excludes {
        Option::None => true,
        Option::Some(ex) => forall|i: int| 0 <= i < ex@.len()
            ==> !has_substring(p, ex@[i]@),
    }
}

/// A discovered path is kept when it contains none of the excluded
/// fragments; with no exclusion list every path is kept.
pub fn keep_path(path: &String, excludes: &Option<Vec<String>>) -> (r: bool)
    ensures
        r == kept_path(path@, *excludes),
{
    match excludes {
        None => true,
        Some(ex) => {
            let mut i: usize = 0;
            while i < ex.len()
                invariant
                    i <= ex@.len(),
                    kept_path(path@, *excludes) == (forall|j: int| 0 <= j < ex@.len()
                        ==> !has_substring(path@, ex@[j]@)),
                    forall|j: int| 0 <= j < i ==> !has_substring(path@, ex@[j]@),
                decreases ex@.len() - i,
            {
                if contains_sub(path, &ex[i]) {
                    proof {
                        assert(has_substring(path@, ex@[i as int]@));
                        assert(!(forall|j: int| 0 <= j < ex@.len()
                            ==> !has_substring(path@, ex@[j]@)));
                    }
                    return false;
                }
                i += 1;
            }
            true
        },
    }
}

/// Lexicographic order on strings, by code point.
pub open spec fn lex_le(a: Seq<char>, b: Seq<char>) -> bool
    decreases a.len(),
{
    if a.len() == 0 {
        true
    } else if b.len() == 0 {
        false
    } else if a[0] as u32 == b[0] as u32 {
        lex_le(a.drop_first(), b.drop_first())
    } else {
        (a[0] as u32) < (b[0] as u32)
    }
}

pub proof fn lemma_lex_total(a: Seq<char>, b: Seq<char>)
    ensures
        lex_le(a, b) || lex_le(b, a),
    decreases a.len(),
{
    if a.len() > 0 && b.len() > 0 && a[0] as u32 == b[0] as u32 {
        lemma_lex_total(a.drop_first(), b.drop_first());
    }
}

pub proof fn lemma_lex_trans(a: Seq<char>, b: Seq<char>, c: Seq<char>)
    requires
        lex_le(a, b),
        lex_le(b, c),
    ensures
        lex_le(a, c),
    decreases a.len(),
{
    if a.len() > 0 && b.len() > 0 && c.len() > 0 {
        if a[0] as u32 == b[0] as u32 && b[0] as u32 == c[0] as u32 {
            lemma_lex_trans(a.drop_first(), b.drop_first(), c.drop_first());
        }
    }
}

/// Whether `a.path` sorts at or before `b.path`.
fn path_le(a: &GitConfig, b: &GitConfig) -> (r: bool)
    ensures
        r == lex_le(a.path@, b.path@),
{
    let sa: &str = a.path.as_str();
    let sb: &str = b.path.as_str();
    let na: usize = sa.unicode_len();
    let nb: usize = sb.unicode_len();
    let mut i: usize = 0;
    proof {
        assert(a.path@.skip(0) =~= a.path@);
        assert(b.path@.skip(0) =~= b.path@);
    }
    while i < na && i < nb
        invariant
            i <= na,
            i <= nb,
            na == a.path@.len(),
            nb == b.path@.len(),
            sa@ == a.path@,
            sb@ == b.path@,
            lex_le(a.path@, b.path@) == lex_le(a.path@.skip(i as int), b.path@.skip(i as int)),
            lex_le(b.path@, a.path@) == lex_le(b.path@.skip(i as int), a.path@.skip(i as int)),
        decreases na - i,
    {
        let ca: u32 = sa.get_char(i) as u32;
        let cb: u32 = sb.get_char(i) as u32;
        if ca != cb {
            return ca < cb;
        }
        proof {
            assert(a.path@.skip(i as int).drop_first() =~= a.path@.skip(i as int + 1));
            assert(b.path@.skip(i as int).drop_first() =~= b.path@.skip(i as int + 1));
        }
        i += 1;
    }
    proof {
        if i >= na {
            assert(a.path@.skip(i as int).len() == 0);
        } else {
            assert(b.path@.skip(i as int).len() == 0);
            assert(a.path@.skip(i as int).len() > 0);
        }
    }
    i >= na
}

/// The repository configurations are ordered by path.
pub open spec fn sorted_by_path(s: Seq<GitConfig>) -> bool {
    forall|i: int, j: int| 0 <= i < j < s.len() ==> lex_le(s[i].path@, s[j].path@)
}

/// Assemble the generated task's repository list: the discovered
/// configurations, ordered by repository path.  Reading the repositories and
/// writing the task file happen at the caller's edge.
pub fn run(configs: Vec<GitConfig>) -> (r: Vec<GitConfig>)
    ensures
        sorted_by_path(r@),
        r@.to_multiset() == configs@.to_multiset(),
{
    broadcast use vstd::seq_lib::group_to_multiset_ensures;

    let ghost orig = configs@;
    let mut input = configs;
    let mut out: Vec<GitConfig> = Vec::new();
    while input.len() > 0
        invariant
            sorted_by_path(out@),
            forall|oi: int, ri: int| 0 <= oi < out@.len() && 0 <= ri < input@.len()
                ==> lex_le(out@[oi].path@, input@[ri].path@),
            out@.to_multiset().add(input@.to_multiset()) == orig.to_multiset(),
        decreases input@.len(),
    {
        let mut mi: usize = 0;
        let mut j: usize = 1;
        proof {
            lemma_lex_total(input@[0].path@, input@[0].path@);
        }
        while j < input.len()
            invariant
                mi < j,
                j <= input@.len(),
                input@.len() > 0,
                forall|jj: int| 0 <= jj < j ==> lex_le(input@[mi as int].path@, input@[jj].path@),
            decreases input@.len() - j,
        {
            if path_le(&input[j], &input[mi]) {
                proof {
                    assert forall|jj: int| 0 <= jj < j + 1
                        implies lex_le(input@[j as int].path@, input@[jj].path@) by {
                        if jj < j {
                            lemma_lex_trans(
                                input@[j as int].path@,
                                input@[mi as int].path@,
                                input@[jj].path@,
                            );
                        } else {
                            lemma_lex_total(input@[j as int].path@, input@[j as int].path@);
                        }
                    }
                }
                mi = j;
            } else {
                proof {
                    lemma_lex_total(input@[j as int].path@, input@[mi as int].path@);
                }
            }
            j += 1;
        }
        let ghost in0 = input@;
        let ghost out0 = out@;
        let e = input.remove(mi);
        out.push(e);
        proof {
            broadcast use vstd::seq_lib::group_to_multiset_ensures;

            assert(in0.contains(in0[mi as int]));
            assert(in0.to_multiset().count(e) > 0);
            assert(input@ =~= in0.remove(mi as int));
            assert(in0.remove(mi as int).to_multiset() =~= in0.to_multiset().remove(in0[mi as int]));
            assert(out@ =~= out0.push(e));
            assert(out0.push(e).to_multiset() =~= out0.to_multiset().insert(e));
            assert(out@.to_multiset().add(input@.to_multiset()) =~= orig.to_multiset());
            assert forall|oi: int, ri: int|
                0 <= oi < out@.len() && 0 <= ri < input@.len()
                    implies lex_le(out@[oi].path@, input@[ri].path@) by {
                let rorig: int = if ri < mi { ri } else { ri + 1 };
                assert(input@[ri] == in0[rorig]);
                if oi < out0.len() {
                    assert(lex_le(out@[oi].path@, in0[rorig].path@));
                } else {
                    assert(out@[oi] == e);
                    assert(lex_le(in0[mi as int].path@, in0[rorig].path@));
                }
            }
        }
    }
    out
}

/// One field's expansion holds between a raw and a resolved configuration.
pub open spec fn resolved_generate_config(
    o: GenerateGitConfig,
    n: GenerateGitConfig,
    m: Map<Seq<char>, Seq<char>>,
    hv: Option<Seq<char>>,
) -> bool {
    &&& first_expansion(o.path@, m, hv) == Some(n.path@)
    &&& n.search_paths@.len() == o.search_paths@.len()
    &&& forall|j: int| 0 <= j < o.search_paths@.len()
        ==> first_expansion(o.search_paths@[j]@, m, hv) == Some(n.search_paths@[j]@)
    &&& match (o.excludes, n.excludes) {
        (Option::None, Option::None) => true,
        (Option::Some(oe), Option::Some(ne)) => ne@.len() == oe@.len()
            && forall|j: int| 0 <= j < oe@.len()
                ==> first_expansion(oe@[j]@, m, hv) == Some(ne@[j]@),
        _ => false,
    }
}

impl GenerateGitConfig {
    /// Expand environment references and the home shorthand in the task
    /// path, the search paths and the excludes, against a fully resolved
    /// environment; fails on the first reference to an absent name.
    pub fn resolve_env(&mut self, env: &Vec<EnvEntry>, home: &Option<String>) -> (r: Result<
        (),
        EnvError,
    >)
        requires
            env_distinct(env@),
        ensures
            match r {
                Ok(()) => resolved_generate_config(
                    *old(self),
                    *final(self),
                    env_map(env@),
                    home_view(*home),
                ),
                Err(e) => e matches EnvError::EnvLookup { var } && {
                    let m = env_map(env@);
                    let hv = home_view(*home);
                    ||| first_expansion(old(self).path@, m, hv) is None
                    ||| (exists|j: int| 0 <= j < old(self).search_paths@.len()
                        && #[trigger] first_expansion(old(self).search_paths@[j]@, m, hv)
                            is None)
                    ||| (old(self).excludes matches Some(oe)
                        && exists|j: int| 0 <= j < oe@.len()
                            && #[trigger] first_expansion(oe@[j]@, m, hv) is None)
                },
            },
    {
        let ghost m = env_map(env@);
        let ghost hv = home_view(*home);
        let pending: Vec<String> = Vec::new();
        proof {
            assert(key_set(pending@) =~= Set::<Seq<char>>::empty());
        }
        match crate::env::expand(&self.path, env, &pending, true, home) {
            Ok((text, _d)) => {
                self.path = text;
            },
            Err(var) => {
                proof {
                    assert(first_expansion(self.path@, m, hv) is None);
                }
                return Err(EnvError::EnvLookup { var });
            },
        }
        let mut new_paths: Vec<String> = Vec::new();
        let mut i: usize = 0;
        while i < self.search_paths.len()
            invariant
                env_distinct(env@),
                m == env_map(env@),
                hv == home_view(*home),
                key_set(pending@) == Set::<Seq<char>>::empty(),
                self.search_paths == old(self).search_paths,
                i <= self.search_paths@.len(),
                new_paths@.len() == i,
                forall|j: int| 0 <= j < i
                    ==> first_expansion(self.search_paths@[j]@, m, hv)
                        == Some(new_paths@[j]@),
            decreases self.search_paths@.len() - i,
        {
            match crate::env::expand(&self.search_paths[i], env, &pending, true, home) {
                Ok((text, _d)) => {
                    new_paths.push(text);
                },
                Err(var) => {
                    proof {
                        assert(first_expansion(self.search_paths@[i as int]@, m, hv) is None);
                    }
                    return Err(EnvError::EnvLookup { var });
                },
            }
            i += 1;
        }
        self.search_paths = new_paths;
        let has_ex = matches!(&self.excludes, Option::Some(_));
        if has_ex {
            let ex_len: usize = match &self.excludes {
                Some(ex) => ex.len(),
                None => 0,
            };
            let mut new_ex: Vec<String> = Vec::new();
            let mut k: usize = 0;
            while k < ex_len
                invariant
                    env_distinct(env@),
                    m == env_map(env@),
                    hv == home_view(*home),
                    key_set(pending@) == Set::<Seq<char>>::empty(),
                    self.excludes == old(self).excludes,
                    self.excludes matches Option::Some(ex) && ex_len == ex@.len(),
                    k <= ex_len,
                    new_ex@.len() == k,
                    self.excludes matches Option::Some(ex) ==> forall|j: int| 0 <= j < k
                        ==> first_expansion(ex@[j]@, m, hv) == Some(new_ex@[j]@),
                decreases ex_len - k,
            {
                let raw = match &self.excludes {
                    Some(ex) => &ex[k],
                    None => {
                        proof {
                            assert(false);
                        }
                        &self.path
                    },
                };
                match crate::env::expand(raw, env, &pending, true, home) {
                    Ok((text, _d)) => {
                        new_ex.push(text);
                    },
                    Err(var) => {
                        proof {
                            assert(first_expansion(raw@, m, hv) is None);
                        }
                        return Err(EnvError::EnvLookup { var });
                    },
                }
                k += 1;
            }
            self.excludes = Some(new_ex);
        }
        Ok(())
    }
}

} // verus!
