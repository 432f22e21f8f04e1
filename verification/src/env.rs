//! Fixed-point resolution of an environment mapping.
//!
//! A raw configuration mapping assigns to each key a string that may contain
//! references (`$NAME` or `${NAME}`) to inherited environment variables or to
//! other keys of the same mapping, and a leading `~` as a shorthand for the
//! home directory.  Resolution expands every value until no reference remains,
//! deferring keys whose references are not yet available and iterating to a
//! fixed point; a pass that resolves no key at all proves a cycle.

use vstd::prelude::*;
use vstd::string::*;

verus! {

/// Errors from resolving the environment mapping.
#[derive(Debug, PartialEq)]
pub enum EnvError {
    /// A referenced name was found neither among the inherited variables nor
    /// among the keys of the configuration mapping.
    EnvLookup { var: String },
    /// A whole resolution pass resolved no key: the remaining keys reference
    /// one another (or themselves) in a cycle, in queue order.
    UnresolvedCycle { keys: Vec<String> },
}

/// One key/value pair of an environment mapping.
#[derive(Debug, PartialEq, Clone)]
pub struct EnvEntry {
    pub key: String,
    pub value: String,
}

/// Characters that may begin a variable name: ASCII letters and `_`.
pub open spec fn is_name_start(c: char) -> bool {
    ('a' as u32 <= c as u32 && c as u32 <= 'z' as u32)
    || ('A' as u32 <= c as u32 && c as u32 <= 'Z' as u32)
    || c == '_'
}

/// Characters that may continue a variable name: name starters and digits.
pub open spec fn is_name_char(c: char) -> bool {
    is_name_start(c) || ('0' as u32 <= c as u32 && c as u32 <= '9' as u32)
}

/// Index just past the run of name characters starting at `i`.
pub open spec fn name_end(s: Seq<char>, i: int) -> int
    decreases s.len() - i,
{
    if 0 <= i < s.len() && is_name_char(s[i]) {
        name_end(s, i + 1)
    } else {
        i
    }
}

pub proof fn lemma_name_end_bounds(s: Seq<char>, i: int)
    requires
        0 <= i <= s.len(),
    ensures
        i <= name_end(s, i) <= s.len(),
    decreases s.len() - i,
{
    if 0 <= i < s.len() && is_name_char(s[i]) {
        lemma_name_end_bounds(s, i + 1);
    }
}

/// Outcome of expanding one string: the expanded text together with whether
/// any reference was deferred, or the first name found to be missing.
pub enum SpecExpansion {
    Expanded { text: Seq<char>, deferred: bool },
    Missing { var: Seq<char> },
}

/// Prefix `t` (with deferral flag `d`) onto the outcome of the rest of a string.
pub open spec fn prepend_expansion(t: Seq<char>, d: bool, rest: SpecExpansion) -> SpecExpansion {
    match rest {
        SpecExpansion::Expanded { text, deferred } => SpecExpansion::Expanded {
            text: t + text,
            deferred: d || deferred,
        },
        SpecExpansion::Missing { var } => SpecExpansion::Missing { var },
    }
}

proof fn lemma_prepend_assoc(a: Seq<char>, da: bool, b: Seq<char>, db: bool, rest: SpecExpansion)
    ensures
        prepend_expansion(a, da, prepend_expansion(b, db, rest))
            == prepend_expansion(a + b, da || db, rest),
{
    match rest {
        SpecExpansion::Expanded { text, deferred } => {
            assert(a + (b + text) =~= (a + b) + text);
        },
        SpecExpansion::Missing { var } => {},
    }
}

/// What a single reference resolves to.
pub enum RefLookup {
    Subst(Seq<char>),
    Defer,
    Absent,
}

/// Resolve one referenced name.  During the first pass the environment built
/// from the inherited variables is consulted first and a reference to any
/// configuration key defers; during fixed-point passes a reference to a
/// still-queued key defers first, and the environment so far is consulted
/// second.
pub open spec fn lookup_ref(
    name: Seq<char>,
    env: Map<Seq<char>, Seq<char>>,
    pending: Set<Seq<char>>,
    pending_first: bool,
) -> RefLookup {
    if pending_first && pending.contains(name) {
        RefLookup::Defer
    } else if env.contains_key(name) {
        RefLookup::Subst(env[name])
    } else if !pending_first && pending.contains(name) {
        RefLookup::Defer
    } else {
        RefLookup::Absent
    }
}

#[via_fn]
proof fn expand_from_decreases(
    s: Seq<char>,
    i: int,
    env: Map<Seq<char>, Seq<char>>,
    pending: Set<Seq<char>>,
    pending_first: bool,
) {
    if 0 <= i < s.len() {
        lemma_name_end_bounds(s, i + 1);
        if i + 2 <= s.len() {
            lemma_name_end_bounds(s, i + 2);
        }
    }
}

/// Expansion of the suffix of `s` that starts at `i`.  `$NAME` and `${NAME}`
/// are references; a `$` that introduces no well-formed reference stands for
/// itself.  A deferred reference is kept literally in the output and flagged.
pub open spec fn expand_from(
    s: Seq<char>,
    i: int,
    env: Map<Seq<char>, Seq<char>>,
    pending: Set<Seq<char>>,
    pending_first: bool,
) -> SpecExpansion
    decreases s.len() - i,
        via expand_from_decreases
{
    if !(0 <= i < s.len()) {
        SpecExpansion::Expanded { text: Seq::empty(), deferred: false }
    } else if s[i] == '$' && i + 1 < s.len() && s[i + 1] == '{' && ({
        let j: int = name_end(s, i + 2);
        j < s.len() && s[j] == '}' && j > i + 2
    }) {
        let j: int = name_end(s, i + 2);
        expand_ref(
            s.subrange(i + 2, j),
            s.subrange(i, j + 1),
            expand_from(s, j + 1, env, pending, pending_first),
            env,
            pending,
            pending_first,
        )
    } else if s[i] == '$' && i + 1 < s.len() && is_name_start(s[i + 1]) {
        let j: int = name_end(s, i + 1);
        expand_ref(
            s.subrange(i + 1, j),
            s.subrange(i, j),
            expand_from(s, j, env, pending, pending_first),
            env,
            pending,
            pending_first,
        )
    } else {
        prepend_expansion(seq![s[i]], false, expand_from(s, i + 1, env, pending, pending_first))
    }
}

/// Combine one reference (`name`, whose text in the string is `consumed`)
/// with the expansion of the rest of the string.
pub open spec fn expand_ref(
    name: Seq<char>,
    consumed: Seq<char>,
    rest: SpecExpansion,
    env: Map<Seq<char>, Seq<char>>,
    pending: Set<Seq<char>>,
    pending_first: bool,
) -> SpecExpansion {
    match lookup_ref(name, env, pending, pending_first) {
        RefLookup::Subst(v) => prepend_expansion(v, false, rest),
        RefLookup::Defer => prepend_expansion(consumed, true, rest),
        RefLookup::Absent => SpecExpansion::Missing { var: name },
    }
}

/// Expansion of a whole value during the first pass: a leading `~` (alone or
/// followed by `/`) is replaced by the home directory when one is known, and
/// references are then expanded with the inherited environment consulted
/// before the configuration keys.
pub open spec fn expand_first(
    s: Seq<char>,
    env: Map<Seq<char>, Seq<char>>,
    pending: Set<Seq<char>>,
    home: Option<Seq<char>>,
) -> SpecExpansion {
    match home {
        Some(h) => if s.len() > 0 && s[0] == '~' && (s.len() == 1 || s[1] == '/') {
            prepend_expansion(h, false, expand_from(s, 1, env, pending, false))
        } else {
            expand_from(s, 0, env, pending, false)
        },
        None => expand_from(s, 0, env, pending, false),
    }
}

/// The mapping that a sequence of entries denotes (later entries win).
pub open spec fn env_map(s: Seq<EnvEntry>) -> Map<Seq<char>, Seq<char>>
    decreases s.len(),
{
    if s.len() == 0 {
        Map::empty()
    } else {
        env_map(s.drop_last()).insert(s.last().key@, s.last().value@)
    }
}

/// No key occurs twice.
pub open spec fn env_distinct(s: Seq<EnvEntry>) -> bool {
    forall|i: int, j: int| 0 <= i < j < s.len() ==> s[i].key@ != s[j].key@
}

/// The set of keys of a queue of names.
pub open spec fn key_set(q: Seq<String>) -> Set<Seq<char>> {
    Set::new(|k: Seq<char>| exists|i: int| 0 <= i < q.len() && q[i]@ == k)
}

pub proof fn lemma_env_map_contains(s: Seq<EnvEntry>)
    ensures
        forall|k: Seq<char>|
            env_map(s).contains_key(k) <==> exists|i: int| 0 <= i < s.len() && s[i].key@ == k,
    decreases s.len(),
{
    if s.len() > 0 {
        lemma_env_map_contains(s.drop_last());
        assert forall|k: Seq<char>|
            env_map(s).contains_key(k)
                <==> exists|i: int| 0 <= i < s.len() && s[i].key@ == k by {
            assert(env_map(s) == env_map(s.drop_last()).insert(s.last().key@, s.last().value@));
            if env_map(s).contains_key(k) {
                if k == s.last().key@ {
                    assert(s[s.len() - 1].key@ == k);
                } else {
                    assert(env_map(s) == env_map(s.drop_last()).insert(s.last().key@, s.last().value@));
                    assert(env_map(s.drop_last()).contains_key(k));
                    let i = choose|i: int| 0 <= i < s.drop_last().len() && s.drop_last()[i].key@ == k;
                    assert(s.drop_last()[i] == s[i]);
                    assert(s[i].key@ == k);
                }
            }
            if exists|i: int| 0 <= i < s.len() && s[i].key@ == k {
                let i = choose|i: int| 0 <= i < s.len() && s[i].key@ == k;
                if i < s.len() - 1 {
                    assert(s.drop_last()[i].key@ == k);
                    assert(env_map(s.drop_last()).contains_key(k));
                } else {
                    assert(k == s.last().key@);
                }
            }
        }
    }
}

pub proof fn lemma_env_map_index(s: Seq<EnvEntry>, i: int)
    requires
        env_distinct(s),
        0 <= i < s.len(),
    ensures
        env_map(s).contains_key(s[i].key@),
        env_map(s)[s[i].key@] == s[i].value@,
    decreases s.len(),
{
    lemma_env_map_contains(s);
    if i < s.len() - 1 {
        assert(s.last().key@ != s[i].key@);
        assert(env_distinct(s.drop_last()));
        assert(s.drop_last()[i] == s[i]);
        lemma_env_map_index(s.drop_last(), i);
    }
}

/// Find the index of a key in an entry list.
fn env_find(v: &Vec<EnvEntry>, k: &String) -> (r: Option<usize>)
    ensures
        match r {
            Some(i) => i < v.len() && v@[i as int].key@ == k@,
            None => forall|i: int| 0 <= i < v@.len() ==> v@[i].key@ != k@,
        },
{
    let mut i: usize = 0;
    while i < v.len()
        invariant
            i <= v.len(),
            forall|j: int| 0 <= j < i ==> v@[j].key@ != k@,
        decreases v.len() - i,
    {
        if v[i].key.eq(k) {
            return Some(i);
        }
        i += 1;
    }
    None
}

/// Whether a queue of names contains a key.
fn queue_contains(q: &Vec<String>, k: &String) -> (r: bool)
    ensures
        r == key_set(q@).contains(k@),
{
    let mut i: usize = 0;
    while i < q.len()
        invariant
            i <= q.len(),
            forall|j: int| 0 <= j < i ==> q@[j]@ != k@,
        decreases q.len() - i,
    {
        if q[i].eq(k) {
            proof {
                assert(q@[i as int]@ == k@);
                assert(key_set(q@).contains(k@));
            }
            return true;
        }
        i += 1;
    }
    false
}

fn is_name_start_exec(c: char) -> (r: bool)
    ensures
        r == is_name_start(c),
{
    ('a' <= c && c <= 'z') || ('A' <= c && c <= 'Z') || c == '_'
}

fn is_name_char_exec(c: char) -> (r: bool)
    ensures
        r == is_name_char(c),
{
    is_name_start_exec(c) || ('0' <= c && c <= '9')
}

/// Scan past a run of name characters.
fn scan_name(s: &str, start: usize) -> (end: usize)
    requires
        start <= s@.len(),
    ensures
        end == name_end(s@, start as int),
        start <= end <= s@.len(),
{
    proof {
        lemma_name_end_bounds(s@, start as int);
    }
    let n: usize = s.unicode_len();
    let mut j: usize = start;
    while j < n && is_name_char_exec(s.get_char(j))
        invariant
            start <= j <= n,
            n == s@.len(),
            name_end(s@, start as int) == name_end(s@, j as int),
        decreases n - j,
    {
        j += 1;
    }
    j
}

/// Expand one value.  `first` selects the first-pass behaviour (`~` shorthand,
/// inherited environment consulted before configuration keys); otherwise the
/// fixed-point behaviour is used (queued keys defer first).  Returns the
/// expanded text and whether any reference was deferred, or the missing name.
pub(crate) fn expand(
    s: &String,
    env: &Vec<EnvEntry>,
    pending: &Vec<String>,
    first: bool,
    home: &Option<String>,
) -> (r: Result<(String, bool), String>)
    requires
        env_distinct(env@),
    ensures
        ({
            let sp = if first {
                expand_first(s@, env_map(env@), key_set(pending@), match home {
                    Some(h) => Some(h@),
                    None => None,
                })
            } else {
                expand_from(s@, 0, env_map(env@), key_set(pending@), true)
            };
            match r {
                Ok((t, d)) => sp == (SpecExpansion::Expanded { text: t@, deferred: d }),
                Err(v) => sp == (SpecExpansion::Missing { var: v@ }),
            }
        }),
{
    let ghost m = env_map(env@);
    let ghost p = key_set(pending@);
    let ghost pf = !first;
    let sl: &str = s.as_str();
    let n: usize = sl.unicode_len();
    let mut out: String = String::new();
    let mut deferred: bool = false;
    let mut i: usize = 0;

    let ghost target = if first {
        expand_first(s@, m, p, match home {
            Some(h) => Some(h@),
            None => None,
        })
    } else {
        expand_from(s@, 0, m, p, true)
    };

    if first && n > 0 && sl.get_char(0) == '~' && (n == 1 || sl.get_char(1) == '/') {
        if let Some(h) = home {
            out.append(h.as_str());
            proof {
                assert(out@ =~= h@);
            }
            i = 1;
        }
    }
    assert(target == prepend_expansion(out@, deferred, expand_from(s@, i as int, m, p, pf)));

    while i < n
        invariant
            i <= n,
            n == s@.len(),
            sl@ == s@,
            env_distinct(env@),
            m == env_map(env@),
            p == key_set(pending@),
            pf == !first,
            target == (if first {
                expand_first(s@, env_map(env@), key_set(pending@), match home {
                    Some(h) => Some(h@),
                    None => None,
                })
            } else {
                expand_from(s@, 0, env_map(env@), key_set(pending@), true)
            }),
            target == prepend_expansion(out@, deferred, expand_from(s@, i as int, m, p, pf)),
        decreases n - i,
    {
        let c = sl.get_char(i);
        if c == '$' {
            // Try to read a reference beginning here.
            let mut name_lo: usize = 0;
            let mut name_hi: usize = 0;
            let mut next: usize = 0;
            let mut is_ref: bool = false;
            if i + 1 < n && sl.get_char(i + 1) == '{' {
                let j: usize = scan_name(sl, i + 2);
                if j < n && sl.get_char(j) == '}' && j > i + 2 {
                    name_lo = i + 2;
                    name_hi = j;
                    next = j + 1;
                    is_ref = true;
                }
            } else if i + 1 < n && is_name_start_exec(sl.get_char(i + 1)) {
                let j: usize = scan_name(sl, i + 1);
                name_lo = i + 1;
                name_hi = j;
                next = j;
                is_ref = true;
            }
            if is_ref {
                let ghost consumed = s@.subrange(i as int, next as int);
                let ghost nm = s@.subrange(name_lo as int, name_hi as int);
                assert(expand_from(s@, i as int, m, p, pf) == expand_ref(
                    nm,
                    consumed,
                    expand_from(s@, next as int, m, p, pf),
                    m,
                    p,
                    pf,
                ));
                let name: String = sl.substring_char(name_lo, name_hi).to_owned();
                let in_pending = queue_contains(pending, &name);
                let found = env_find(env, &name);
                proof {
                    if let Some(fi) = found {
                        lemma_env_map_index(env@, fi as int);
                    } else {
                        lemma_env_map_contains(env@);
                    }
                }
                let ghost out0 = out@;
                if !first && in_pending {
                    // Still queued: keep the reference literally and defer.
                    out.append(sl.substring_char(i, next));
                    proof {
                        assert(lookup_ref(nm, m, p, pf) is Defer);
                        lemma_prepend_assoc(out0, deferred, consumed, true,
                            expand_from(s@, next as int, m, p, pf));
                    }
                    deferred = true;
                    i = next;
                } else if let Some(fi) = found {
                    out.append(env[fi].value.as_str());
                    proof {
                        assert(m[nm] == env@[fi as int].value@);
                        assert(lookup_ref(nm, m, p, pf) == RefLookup::Subst(m[nm]));
                        lemma_prepend_assoc(out0, deferred, m[nm], false,
                            expand_from(s@, next as int, m, p, pf));
                    }
                    i = next;
                } else if first && in_pending {
                    out.append(sl.substring_char(i, next));
                    proof {
                        assert(lookup_ref(nm, m, p, pf) is Defer);
                        lemma_prepend_assoc(out0, deferred, consumed, true,
                            expand_from(s@, next as int, m, p, pf));
                    }
                    deferred = true;
                    i = next;
                } else {
                    proof {
                        assert(name@ == nm);
                        assert(!p.contains(nm));
                        assert(!m.contains_key(nm));
                        assert(lookup_ref(nm, m, p, pf) is Absent);
                        assert(expand_from(s@, i as int, m, p, pf)
                            == (SpecExpansion::Missing { var: nm }));
                        assert(target == (SpecExpansion::Missing { var: nm }));
                    }
                    return Err(name);
                }
            } else {
                // A `$` that introduces no reference stands for itself.
                let ghost out0 = out@;
                out.append(sl.substring_char(i, i + 1));
                proof {
                    assert(s@.subrange(i as int, i as int + 1) =~= seq![s@[i as int]]);
                    lemma_prepend_assoc(out0, deferred, seq![s@[i as int]], false,
                        expand_from(s@, i as int + 1, m, p, pf));
                }
                i += 1;
            }
        } else {
            let ghost out0 = out@;
            out.append(sl.substring_char(i, i + 1));
            proof {
                assert(s@.subrange(i as int, i as int + 1) =~= seq![s@[i as int]]);
                lemma_prepend_assoc(out0, deferred, seq![s@[i as int]], false,
                    expand_from(s@, i as int + 1, m, p, pf));
            }
            i += 1;
        }
    }
    assert(expand_from(s@, i as int, m, p, pf)
        == (SpecExpansion::Expanded { text: Seq::<char>::empty(), deferred: false }));
    assert(out@ + Seq::<char>::empty() =~= out@);
    Ok((out, deferred))
}

/// The views of a queue of names.
pub open spec fn views_of(q: Seq<String>) -> Seq<Seq<char>> {
    q.map_values(|x: String| x@)
}

/// The view of an optional home directory.
pub open spec fn home_view(home: Option<String>) -> Option<Seq<char>> {
    match home {
        Some(h) => Some(h@),
        None => None,
    }
}

/// The set of keys of a configuration mapping.
pub open spec fn cfg_key_set(config: Seq<EnvEntry>) -> Set<Seq<char>> {
    Set::new(|k: Seq<char>| exists|i: int| 0 <= i < config.len() && config[i].key@ == k)
}

/// Outcome of the first pass over the configuration.
pub enum SpecFirstPass {
    Fail(Seq<char>),
    Cont { calc: Map<Seq<char>, Seq<char>>, queue: Seq<Seq<char>> },
}

/// First pass: each raw value is expanded against the inherited environment,
/// with every configuration key treated as "not yet available"; keys whose
/// expansion deferred are queued, in configuration order.
pub open spec fn first_pass(
    base: Map<Seq<char>, Seq<char>>,
    cfg_keys: Set<Seq<char>>,
    config: Seq<EnvEntry>,
    home: Option<Seq<char>>,
    i: int,
    calc: Map<Seq<char>, Seq<char>>,
    queue: Seq<Seq<char>>,
) -> SpecFirstPass
    decreases config.len() - i,
{
    if !(0 <= i < config.len()) {
        SpecFirstPass::Cont { calc, queue }
    } else {
        match expand_first(config[i].value@, base, cfg_keys, home) {
            SpecExpansion::Missing { var } => SpecFirstPass::Fail(var),
            SpecExpansion::Expanded { text, deferred } => first_pass(
                base,
                cfg_keys,
                config,
                home,
                i + 1,
                calc.insert(config[i].key@, text),
                if deferred {
                    queue.push(config[i].key@)
                } else {
                    queue
                },
            ),
        }
    }
}

/// Outcome of one fixed-point pass over the queue.
pub enum SpecFpPass {
    Fail(Seq<char>),
    Cont { env: Map<Seq<char>, Seq<char>>, kept: Seq<Seq<char>>, progressed: bool },
}

/// One fixed-point pass: each queued key's current value is re-expanded
/// against the environment as it stood at the start of the pass, references
/// to still-queued keys deferring again.  A key is kept in the queue exactly
/// when its expansion still deferred; the pass progressed when some key
/// resolved fully.
pub open spec fn fp_pass(
    env0: Map<Seq<char>, Seq<char>>,
    queue: Seq<Seq<char>>,
    j: int,
    acc: Map<Seq<char>, Seq<char>>,
    kept: Seq<Seq<char>>,
    progressed: bool,
) -> SpecFpPass
    decreases queue.len() - j,
{
    if !(0 <= j < queue.len()) {
        SpecFpPass::Cont { env: acc, kept, progressed }
    } else {
        let k = queue[j];
        if !env0.contains_key(k) {
            SpecFpPass::Fail(k)
        } else {
            match expand_from(env0[k], 0, env0, queue.to_set(), true) {
                SpecExpansion::Missing { var } => SpecFpPass::Fail(var),
                SpecExpansion::Expanded { text, deferred } => fp_pass(
                    env0,
                    queue,
                    j + 1,
                    acc.insert(k, text),
                    if deferred {
                        kept.push(k)
                    } else {
                        kept
                    },
                    progressed || !deferred,
                ),
            }
        }
    }
}

/// Outcome of a whole resolution.
pub enum SpecResolve {
    Lookup(Seq<char>),
    Cycle(Seq<Seq<char>>),
    Done(Map<Seq<char>, Seq<char>>),
}

proof fn lemma_fp_pass_kept(
    env0: Map<Seq<char>, Seq<char>>,
    queue: Seq<Seq<char>>,
    j: int,
    acc: Map<Seq<char>, Seq<char>>,
    kept: Seq<Seq<char>>,
    progressed: bool,
)
    requires
        0 <= j <= queue.len(),
    ensures
        match fp_pass(env0, queue, j, acc, kept, progressed) {
            SpecFpPass::Cont { kept: k2, progressed: p2, .. } => {
                &&& k2.len() <= kept.len() + (queue.len() - j)
                &&& (p2 && !progressed ==> k2.len() < kept.len() + (queue.len() - j))
            },
            SpecFpPass::Fail(_) => true,
        },
    decreases queue.len() - j,
{
    if j < queue.len() {
        let k = queue[j];
        if env0.contains_key(k) {
            match expand_from(env0[k], 0, env0, queue.to_set(), true) {
                SpecExpansion::Missing { var: _ } => {},
                SpecExpansion::Expanded { text, deferred } => {
                    lemma_fp_pass_kept(
                        env0,
                        queue,
                        j + 1,
                        acc.insert(k, text),
                        if deferred {
                            kept.push(k)
                        } else {
                            kept
                        },
                        progressed || !deferred,
                    );
                },
            }
        }
    }
}

#[via_fn]
proof fn fp_loop_decreases(env: Map<Seq<char>, Seq<char>>, queue: Seq<Seq<char>>) {
    if queue.len() > 0 {
        lemma_fp_pass_kept(env, queue, 0, env, Seq::empty(), false);
    }
}

/// The fixed-point loop: passes repeat while the queue is non-empty; a pass
/// that resolves nothing proves a cycle among the remaining keys.
pub open spec fn fp_loop(env: Map<Seq<char>, Seq<char>>, queue: Seq<Seq<char>>) -> SpecResolve
    decreases queue.len(),
        via fp_loop_decreases
{
    if queue.len() == 0 {
        SpecResolve::Done(env)
    } else {
        match fp_pass(env, queue, 0, env, Seq::empty(), false) {
            SpecFpPass::Fail(var) => SpecResolve::Lookup(var),
            SpecFpPass::Cont { env: env2, kept, progressed } => if !progressed {
                SpecResolve::Cycle(kept)
            } else {
                fp_loop(env2, kept)
            },
        }
    }
}

/// What resolving a configuration against an inherited environment yields:
/// the algorithm of the resolver, stated over mathematical maps.
pub open spec fn resolve_spec(
    base: Map<Seq<char>, Seq<char>>,
    config: Seq<EnvEntry>,
    home: Option<Seq<char>>,
) -> SpecResolve {
    match first_pass(base, cfg_key_set(config), config, home, 0, Map::empty(), Seq::empty()) {
        SpecFirstPass::Fail(var) => SpecResolve::Lookup(var),
        SpecFirstPass::Cont { calc, queue } => fp_loop(base.union_prefer_right(calc), queue),
    }
}

proof fn lemma_env_map_respects(s1: Seq<EnvEntry>, s2: Seq<EnvEntry>)
    requires
        s1.len() == s2.len(),
        forall|i: int| 0 <= i < s1.len()
            ==> s1[i].key@ == s2[i].key@ && s1[i].value@ == s2[i].value@,
    ensures
        env_map(s1) == env_map(s2),
        env_distinct(s1) == env_distinct(s2),
    decreases s1.len(),
{
    if s1.len() > 0 {
        assert(forall|i: int| 0 <= i < s1.drop_last().len()
            ==> s1.drop_last()[i] == s1[i] && s2.drop_last()[i] == s2[i]);
        lemma_env_map_respects(s1.drop_last(), s2.drop_last());
        assert(env_distinct(s1) ==> env_distinct(s2));
        assert(env_distinct(s2) ==> env_distinct(s1));
    }
}

proof fn lemma_env_map_update(s: Seq<EnvEntry>, i: int, e: EnvEntry)
    requires
        0 <= i < s.len(),
        env_distinct(s),
        e.key@ == s[i].key@,
    ensures
        env_map(s.update(i, e)) == env_map(s).insert(e.key@, e.value@),
        env_distinct(s.update(i, e)),
    decreases s.len(),
{
    let s2 = s.update(i, e);
    assert(env_distinct(s2));
    if i == s.len() - 1 {
        assert(s2.drop_last() =~= s.drop_last());
        assert(env_map(s2) == env_map(s.drop_last()).insert(e.key@, e.value@));
        assert(env_map(s.drop_last()).insert(e.key@, e.value@)
            =~= env_map(s).insert(e.key@, e.value@));
    } else {
        assert(s2.drop_last() =~= s.drop_last().update(i, e));
        assert(env_distinct(s.drop_last()));
        assert(s.drop_last()[i] == s[i]);
        lemma_env_map_update(s.drop_last(), i, e);
        assert(s2.last() == s.last());
        assert(env_map(s2) == env_map(s.drop_last()).insert(e.key@, e.value@).insert(
            s.last().key@,
            s.last().value@,
        ));
        assert(e.key@ != s.last().key@);
        assert(env_map(s.drop_last()).insert(e.key@, e.value@).insert(s.last().key@, s.last().value@)
            =~= env_map(s).insert(e.key@, e.value@));
    }
}

/// Insert a binding, replacing the value of an existing key.
fn env_upsert(v: &mut Vec<EnvEntry>, key: String, value: String)
    requires
        env_distinct(old(v)@),
    ensures
        env_distinct(final(v)@),
        env_map(final(v)@) == env_map(old(v)@).insert(key@, value@),
        final(v)@.len() >= old(v)@.len(),
{
    match env_find(v, &key) {
        Some(i) => {
            let mut e = v.remove(i);
            e.value = value;
            proof {
                assert(old(v)@.remove(i as int).insert(i as int, e) =~= old(v)@.update(i as int, e));
                lemma_env_map_update(old(v)@, i as int, e);
            }
            v.insert(i, e);
        },
        None => {
            v.push(EnvEntry { key, value });
            proof {
                assert(v@.drop_last() =~= old(v)@);
            }
        },
    }
}

/// Copy an entry list.
fn clone_entries(v: &Vec<EnvEntry>) -> (r: Vec<EnvEntry>)
    ensures
        r@.len() == v@.len(),
        forall|i: int| 0 <= i < v@.len()
            ==> r@[i].key@ == v@[i].key@ && r@[i].value@ == v@[i].value@,
        env_map(r@) == env_map(v@),
        env_distinct(r@) == env_distinct(v@),
{
    let mut r: Vec<EnvEntry> = Vec::new();
    let mut i: usize = 0;
    while i < v.len()
        invariant
            i <= v.len(),
            r@.len() == i,
            forall|j: int| 0 <= j < i
                ==> r@[j].key@ == v@[j].key@ && r@[j].value@ == v@[j].value@,
        decreases v.len() - i,
    {
        r.push(EnvEntry { key: v[i].key.clone(), value: v[i].value.clone() });
        i += 1;
    }
    proof {
        lemma_env_map_respects(r@, v@);
    }
    r
}

/// Resolve a configuration mapping against an inherited environment.
///
/// Every raw value is expanded until no reference remains; keys whose values
/// reference other keys are re-expanded pass by pass.  Fails with
/// [`EnvError::EnvLookup`] when a referenced name exists in neither the
/// inherited environment nor the configuration, and with
/// [`EnvError::UnresolvedCycle`] when a whole pass resolves no key.
pub fn get_env(
    inherited: &Vec<EnvEntry>,
    config: &Vec<EnvEntry>,
    home: &Option<String>,
) -> (r: Result<Vec<EnvEntry>, EnvError>)
    requires
        env_distinct(inherited@),
        env_distinct(config@),
    ensures
        match r {
            Ok(out) => env_distinct(out@) && resolve_spec(
                env_map(inherited@),
                config@,
                home_view(*home),
            ) == SpecResolve::Done(env_map(out@)),
            Err(e) => match e {
                EnvError::EnvLookup { var } => resolve_spec(
                    env_map(inherited@),
                    config@,
                    home_view(*home),
                ) == SpecResolve::Lookup(var@),
                EnvError::UnresolvedCycle { keys } => resolve_spec(
                    env_map(inherited@),
                    config@,
                    home_view(*home),
                ) == SpecResolve::Cycle(views_of(keys@)),
            },
        },
{
    let ghost base = env_map(inherited@);
    let ghost ckeys = cfg_key_set(config@);
    let ghost hv = home_view(*home);
    let ghost goal = resolve_spec(base, config@, hv);

    // The configuration keys, all "not yet available" during the first pass.
    let mut pending_all: Vec<String> = Vec::new();
    let mut ci: usize = 0;
    while ci < config.len()
        invariant
            ci <= config.len(),
            pending_all@.len() == ci,
            forall|j: int| 0 <= j < ci ==> pending_all@[j]@ == config@[j].key@,
        decreases config.len() - ci,
    {
        pending_all.push(config[ci].key.clone());
        ci += 1;
    }
    proof {
        assert forall|k: Seq<char>| key_set(pending_all@).contains(k) == ckeys.contains(k) by {
            if key_set(pending_all@).contains(k) {
                let i = choose|i: int| 0 <= i < pending_all@.len() && pending_all@[i]@ == k;
                assert(config@[i].key@ == k);
                assert(ckeys.contains(k));
            }
            if ckeys.contains(k) {
                let i = choose|i: int| 0 <= i < config@.len() && config@[i].key@ == k;
                assert(pending_all@[i]@ == k);
                assert(key_set(pending_all@).contains(k));
            }
        }
        assert(key_set(pending_all@) =~= ckeys);
    }

    let mut out: Vec<EnvEntry> = clone_entries(inherited);
    let mut queue: Vec<String> = Vec::new();
    let ghost mut calc = Map::<Seq<char>, Seq<char>>::empty();
    proof {
        assert(views_of(queue@) =~= Seq::<Seq<char>>::empty());
        assert(env_map(out@) =~= base.union_prefer_right(calc));
    }

    let mut i: usize = 0;
    while i < config.len()
        invariant
            i <= config.len(),
            env_distinct(inherited@),
            env_distinct(config@),
            env_distinct(out@),
            base == env_map(inherited@),
            ckeys == cfg_key_set(config@),
            hv == home_view(*home),
            goal == resolve_spec(base, config@, hv),
            key_set(pending_all@) == ckeys,
            env_map(out@) == base.union_prefer_right(calc),
            first_pass(base, ckeys, config@, hv, 0, Map::empty(), Seq::empty()) == first_pass(
                base,
                ckeys,
                config@,
                hv,
                i as int,
                calc,
                views_of(queue@),
            ),
        decreases config.len() - i,
    {
        match expand(&config[i].value, inherited, &pending_all, true, home) {
            Ok((text, deferred)) => {
                let ghost calc0 = calc;
                let ghost q0 = views_of(queue@);
                let key = config[i].key.clone();
                proof {
                    calc = calc.insert(key@, text@);
                    assert(base.union_prefer_right(calc0).insert(key@, text@)
                        =~= base.union_prefer_right(calc));
                }
                env_upsert(&mut out, key, text);
                if deferred {
                    queue.push(config[i].key.clone());
                    proof {
                        assert(views_of(queue@) =~= q0.push(config@[i as int].key@));
                    }
                }
            },
            Err(var) => {
                proof {
                    assert(first_pass(base, ckeys, config@, hv, i as int, calc, views_of(queue@))
                        == SpecFirstPass::Fail(var@));
                    assert(goal == SpecResolve::Lookup(var@));
                }
                return Err(EnvError::EnvLookup { var });
            },
        }
        i += 1;
    }
    proof {
        assert(first_pass(base, ckeys, config@, hv, i as int, calc, views_of(queue@))
            == (SpecFirstPass::Cont { calc, queue: views_of(queue@) }));
        assert(goal == fp_loop(env_map(out@), views_of(queue@)));
    }

    // Fixed-point passes.
    while queue.len() > 0
        invariant
            env_distinct(out@),
            hv == home_view(*home),
            goal == resolve_spec(env_map(inherited@), config@, home_view(*home)),
            goal == fp_loop(env_map(out@), views_of(queue@)),
        decreases queue.len(),
    {
        let snapshot: Vec<EnvEntry> = clone_entries(&out);
        let ghost env0 = env_map(out@);
        let ghost q0 = views_of(queue@);
        proof {
            assert forall|k: Seq<char>| key_set(queue@).contains(k) == q0.to_set().contains(k) by {
                if key_set(queue@).contains(k) {
                    let i2 = choose|i2: int| 0 <= i2 < queue@.len() && queue@[i2]@ == k;
                    assert(q0[i2] == k);
                }
                if q0.to_set().contains(k) {
                    let i2 = choose|i2: int| 0 <= i2 < q0.len() && q0[i2] == k;
                    assert(queue@[i2]@ == k);
                    assert(key_set(queue@).contains(k));
                }
            }
            assert(key_set(queue@) =~= q0.to_set());
        }
        let mut kept: Vec<String> = Vec::new();
        let mut progressed: bool = false;
        proof {
            assert(views_of(kept@) =~= Seq::<Seq<char>>::empty());
        }
        let mut j: usize = 0;
        while j < queue.len()
            invariant
                j <= queue.len(),
                env_distinct(out@),
                env_distinct(snapshot@),
                hv == home_view(*home),
                env0 == env_map(snapshot@),
                q0 == views_of(queue@),
                key_set(queue@) == q0.to_set(),
                goal == resolve_spec(env_map(inherited@), config@, home_view(*home)),
                goal == fp_loop(env0, q0),
                q0.len() > 0,
                kept@.len() <= j,
                progressed ==> kept@.len() < j,
                fp_pass(env0, q0, 0, env0, Seq::empty(), false) == fp_pass(
                    env0,
                    q0,
                    j as int,
                    env_map(out@),
                    views_of(kept@),
                    progressed,
                ),
            decreases queue.len() - j,
        {
            let ghost kept0 = views_of(kept@);
            match env_find(&snapshot, &queue[j]) {
                Some(vi) => {
                    proof {
                        lemma_env_map_index(snapshot@, vi as int);
                    }
                    match expand(&snapshot[vi].value, &snapshot, &queue, false, home) {
                        Ok((text, deferred)) => {
                            let key = queue[j].clone();
                            env_upsert(&mut out, key, text);
                            if deferred {
                                kept.push(queue[j].clone());
                                proof {
                                    assert(views_of(kept@) =~= kept0.push(q0[j as int]));
                                }
                            } else {
                                progressed = true;
                            }
                        },
                        Err(var) => {
                            proof {
                                assert(fp_pass(env0, q0, j as int, env_map(out@), kept0, progressed)
                                    == SpecFpPass::Fail(var@));
                                assert(goal == SpecResolve::Lookup(var@));
                            }
                            return Err(EnvError::EnvLookup { var });
                        },
                    }
                },
                None => {
                    proof {
                        lemma_env_map_contains(snapshot@);
                        assert(!env0.contains_key(q0[j as int]));
                        assert(fp_pass(env0, q0, j as int, env_map(out@), kept0, progressed)
                            == SpecFpPass::Fail(q0[j as int]));
                        assert(goal == SpecResolve::Lookup(q0[j as int]));
                    }
                    let var = queue[j].clone();
                    return Err(EnvError::EnvLookup { var });
                },
            }
            j += 1;
        }
        proof {
            assert(fp_pass(env0, q0, j as int, env_map(out@), views_of(kept@), progressed)
                == (SpecFpPass::Cont {
                    env: env_map(out@),
                    kept: views_of(kept@),
                    progressed,
                }));
        }
        if !progressed {
            proof {
                assert(goal == SpecResolve::Cycle(views_of(kept@)));
            }
            return Err(EnvError::UnresolvedCycle { keys: kept });
        }
        proof {
            assert(goal == fp_loop(env_map(out@), views_of(kept@)));
        }
        queue = kept;
    }
    proof {
        assert(views_of(queue@).len() == 0);
        assert(goal == SpecResolve::Done(env_map(out@)));
    }
    Ok(out)
}


proof fn lemma_first_pass_keys(
    base: Map<Seq<char>, Seq<char>>,
    cfg_keys: Set<Seq<char>>,
    config: Seq<EnvEntry>,
    home: Option<Seq<char>>,
    i: int,
    calc: Map<Seq<char>, Seq<char>>,
    queue: Seq<Seq<char>>,
)
    requires
        0 <= i <= config.len(),
    ensures
        match first_pass(base, cfg_keys, config, home, i, calc, queue) {
            SpecFirstPass::Cont { calc: calc2, .. } => {
                &&& (forall|k: Seq<char>| #[trigger] calc.contains_key(k)
                    ==> calc2.contains_key(k))
                &&& (forall|j: int| i <= j < config.len()
                    ==> calc2.contains_key(config[j].key@))
            },
            SpecFirstPass::Fail(_) => true,
        },
    decreases config.len() - i,
{
    if i < config.len() {
        match expand_first(config[i].value@, base, cfg_keys, home) {
            SpecExpansion::Missing { var: _ } => {},
            SpecExpansion::Expanded { text, deferred } => {
                let calc1 = calc.insert(config[i].key@, text);
                lemma_first_pass_keys(
                    base,
                    cfg_keys,
                    config,
                    home,
                    i + 1,
                    calc1,
                    if deferred {
                        queue.push(config[i].key@)
                    } else {
                        queue
                    },
                );
                assert(forall|k: Seq<char>| #[trigger] calc.contains_key(k)
                    ==> calc1.contains_key(k));
                assert(calc1.contains_key(config[i].key@));
            },
        }
    }
}

proof fn lemma_fp_pass_keys(
    env0: Map<Seq<char>, Seq<char>>,
    queue: Seq<Seq<char>>,
    j: int,
    acc: Map<Seq<char>, Seq<char>>,
    kept: Seq<Seq<char>>,
    progressed: bool,
)
    requires
        0 <= j <= queue.len(),
    ensures
        match fp_pass(env0, queue, j, acc, kept, progressed) {
            SpecFpPass::Cont { env: env2, .. } => forall|k: Seq<char>|
                #[trigger] acc.contains_key(k) ==> env2.contains_key(k),
            SpecFpPass::Fail(_) => true,
        },
    decreases queue.len() - j,
{
    if j < queue.len() {
        let k = queue[j];
        if env0.contains_key(k) {
            match expand_from(env0[k], 0, env0, queue.to_set(), true) {
                SpecExpansion::Missing { var: _ } => {},
                SpecExpansion::Expanded { text, deferred } => {
                    let acc1 = acc.insert(k, text);
                    lemma_fp_pass_keys(
                        env0,
                        queue,
                        j + 1,
                        acc1,
                        if deferred {
                            kept.push(k)
                        } else {
                            kept
                        },
                        progressed || !deferred,
                    );
                    assert(forall|k2: Seq<char>| #[trigger] acc.contains_key(k2)
                        ==> acc1.contains_key(k2));
                },
            }
        }
    }
}

proof fn lemma_fp_loop_keys(env: Map<Seq<char>, Seq<char>>, queue: Seq<Seq<char>>)
    ensures
        match fp_loop(env, queue) {
            SpecResolve::Done(m) => forall|k: Seq<char>| #[trigger] env.contains_key(k)
                ==> m.contains_key(k),
            _ => true,
        },
    decreases queue.len(),
{
    if queue.len() > 0 {
        match fp_pass(env, queue, 0, env, Seq::empty(), false) {
            SpecFpPass::Fail(_) => {},
            SpecFpPass::Cont { env: env2, kept, progressed } => {
                lemma_fp_pass_keys(env, queue, 0, env, Seq::empty(), false);
                if progressed {
                    lemma_fp_pass_kept(env, queue, 0, env, Seq::empty(), false);
                    lemma_fp_loop_keys(env2, kept);
                    assert(forall|k: Seq<char>| #[trigger] env.contains_key(k)
                        ==> env2.contains_key(k));
                }
            },
        }
    }
}

/// A successful resolution covers everything: every inherited variable and
/// every key of the configuration mapping is bound in the result.
pub proof fn lemma_resolve_covers(
    base: Map<Seq<char>, Seq<char>>,
    config: Seq<EnvEntry>,
    home: Option<Seq<char>>,
)
    ensures
        match resolve_spec(base, config, home) {
            SpecResolve::Done(m) => {
                &&& (forall|k: Seq<char>| #[trigger] base.contains_key(k)
                    ==> m.contains_key(k))
                &&& (forall|i: int| 0 <= i < config.len()
                    ==> m.contains_key(config[i].key@))
            },
            _ => true,
        },
{
    match first_pass(base, cfg_key_set(config), config, home, 0, Map::empty(), Seq::empty()) {
        SpecFirstPass::Fail(_) => {},
        SpecFirstPass::Cont { calc, queue } => {
            lemma_first_pass_keys(
                base,
                cfg_key_set(config),
                config,
                home,
                0,
                Map::empty(),
                Seq::empty(),
            );
            let env1 = base.union_prefer_right(calc);
            lemma_fp_loop_keys(env1, queue);
            assert(forall|k: Seq<char>| #[trigger] base.contains_key(k)
                ==> env1.contains_key(k));
            assert(forall|i: int| 0 <= i < config.len()
                ==> env1.contains_key(config[i].key@));
        },
    }
}

} // verus!
