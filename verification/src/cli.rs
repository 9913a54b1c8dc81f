//! The checks that the command line makes of its arguments, the cache key
//! of a search, and the exit codes.
use vstd::prelude::*;
use crate::query::parser::{is_variable_name_chars, spec_is_variable_name};
use crate::query::variables::{lookup, spec_insert, QueryVariables};
use crate::report::{chars_less, chars_less_exec};
use crate::text::{
    append_chars, chars_of, debug_str, parse_usize, spec_debug_str, spec_parse_usize, spec_split_once,
    split_once, string_of,
};

verus! {

pub open spec fn workers_message() -> Seq<char> {
    "num-workers must be a positive integer"@
}

/// The number of workers: a positive integer as `usize::from_str` reads it.
pub fn parse_num_workers(value: &str) -> (r: Result<usize, String>)
    ensures
        match r {
            Ok(n) => spec_parse_usize(value@) == Some(n as nat) && n > 0,
            Err(e) => e@ == workers_message() && !(spec_parse_usize(value@) matches Some(n) && n > 0),
        },
{
    match parse_usize(&chars_of(value)) {
        Some(n) => if n > 0 {
            return Ok(n);
        },
        None => {},
    }
    proof {
        reveal_strlit("num-workers must be a positive integer");
    }
    Err("num-workers must be a positive integer".to_owned())
}

pub open spec fn assignment_message() -> Seq<char> {
    "variables must use KEY=VALUE"@
}

pub open spec fn invalid_name_message(name: Seq<char>) -> Seq<char> {
    "invalid variable name `"@ + name + "`"@
}

/// `KEY=VALUE`, split at the first `=`; the key must be a variable name.
pub open spec fn spec_variable_assignment(value: Seq<char>) -> Result<(Seq<char>, Seq<char>), Seq<char>> {
    match spec_split_once(value, '=') {
        None => Err(assignment_message()),
        Some((name, v)) => if spec_is_variable_name(name) {
            Ok((name, v))
        } else {
            Err(invalid_name_message(name))
        },
    }
}

pub fn parse_variable_assignment(value: &str) -> (r: Result<(String, String), String>)
    ensures
        match r {
            Ok((n, v)) => spec_variable_assignment(value@) == Ok::<(Seq<char>, Seq<char>), Seq<char>>((n@, v@)),
            Err(e) => spec_variable_assignment(value@) == Err::<(Seq<char>, Seq<char>), Seq<char>>(e@),
        },
{
    let chars = chars_of(value);
    match split_once(&chars, '=') {
        None => {
            proof {
                reveal_strlit("variables must use KEY=VALUE");
            }
            Err("variables must use KEY=VALUE".to_owned())
        },
        Some((name, v)) => {
            if !is_variable_name_chars(&name) {
                let mut message = chars_of("invalid variable name `");
                append_chars(&mut message, &name);
                message.push('`');
                proof {
                    reveal_strlit("invalid variable name `");
                    reveal_strlit("`");
                    assert(message@ =~= invalid_name_message(name@));
                }
                return Err(string_of(&message));
            }
            Ok((string_of(&name), string_of(&v)))
        },
    }
}

pub open spec fn duplicate_variable_message(name: Seq<char>) -> Seq<char> {
    "duplicate variable `"@ + name + "`"@
}

/// The first `k` whose name an earlier assignment already has.
pub open spec fn first_duplicate(names: Seq<Seq<char>>, k: int) -> Option<int>
    decreases names.len() - k,
{
    if k < 0 || k >= names.len() {
        None
    } else if exists|j: int| 0 <= j < k && names[j] == names[k] {
        Some(k)
    } else {
        first_duplicate(names, k + 1)
    }
}

pub open spec fn assignments_view(v: Seq<(String, String)>) -> Seq<(Seq<char>, Seq<char>)> {
    v.map_values(|a: (String, String)| (a.0@, a.1@))
}

/// The variables of the assignments, in order; a name given twice is an error.
pub fn collect_variables(assignments: Vec<(String, String)>) -> (r: Result<QueryVariables, String>)
    ensures
        match r {
            Ok(vars) => first_duplicate(assignments_view(assignments@).map_values(|a: (Seq<char>, Seq<char>)| a.0), 0) is None
                && vars@ == assignments_view(assignments@),
            Err(e) => first_duplicate(assignments_view(assignments@).map_values(|a: (Seq<char>, Seq<char>)| a.0), 0) matches Some(
                k,
            ) && e@ == duplicate_variable_message(assignments_view(assignments@)[k].0),
        },
{
    let ghost av = assignments_view(assignments@);
    let ghost names = av.map_values(|a: (Seq<char>, Seq<char>)| a.0);
    let mut variables = QueryVariables::new();
    let mut k: usize = 0;
    while k < assignments.len()
        invariant
            k <= av.len(),
            av == assignments_view(assignments@),
            names == av.map_values(|a: (Seq<char>, Seq<char>)| a.0),
            first_duplicate(names, 0) == first_duplicate(names, k as int),
            variables@ == av.subrange(0, k as int),
        decreases av.len() - k,
    {
        let (name, value) = (assignments[k].0.clone(), assignments[k].1.clone());
        assert(av[k as int] == (name@, value@));
        let ghost before = variables@;
        proof {
            use_type_invariant(&variables);
        }
        match variables.insert(name.clone(), value) {
            Some(_) => {
                let mut message = chars_of("duplicate variable `");
                append_chars(&mut message, &chars_of(name.as_str()));
                message.push('`');
                proof {
                    reveal_strlit("duplicate variable `");
                    reveal_strlit("`");
                    assert(message@ =~= duplicate_variable_message(av[k as int].0));
                    lemma_lookup_prefix(before, name@);
                    let j = choose|j: int| 0 <= j < k && before[j].0 == name@;
                    assert(names[j] == names[k as int]);
                }
                return Err(string_of(&message));
            },
            None => {
                proof {
                    lemma_lookup_absent_prefix(before, name@);
                    assert(!(exists|j: int| 0 <= j < k && names[j] == names[k as int])) by {
                        if exists|j: int| 0 <= j < k && names[j] == names[k as int] {
                            let j = choose|j: int| 0 <= j < k && names[j] == names[k as int];
                            assert(before[j].0 == name@);
                        }
                    }
                    assert(!(exists|j: int| 0 <= j < before.len() && before[j].0 == name@));
                    assert(variables@ =~= av.subrange(0, k + 1));
                }
            },
        }
        k = k + 1;
    }
    assert(av.subrange(0, av.len() as int) =~= av);
    Ok(variables)
}

proof fn lemma_lookup_prefix(v: Seq<(Seq<char>, Seq<char>)>, name: Seq<char>)
    requires
        lookup(v, name) is Some,
    ensures
        exists|j: int| 0 <= j < v.len() && v[j].0 == name,
{
    if !(exists|j: int| 0 <= j < v.len() && v[j].0 == name) {
        crate::query::variables::lemma_lookup_absent(v, name, 0);
    }
}

proof fn lemma_lookup_absent_prefix(v: Seq<(Seq<char>, Seq<char>)>, name: Seq<char>)
    requires
        lookup(v, name) is None,
    ensures
        forall|j: int| 0 <= j < v.len() ==> v[j].0 != name,
{
    assert forall|j: int| 0 <= j < v.len() implies v[j].0 != name by {
        if v[j].0 == name {
            lemma_first_at(v, name, j, 0);
        }
    }
}

proof fn lemma_first_at(v: Seq<(Seq<char>, Seq<char>)>, name: Seq<char>, j: int, i: int)
    requires
        0 <= i <= j < v.len(),
        v[j].0 == name,
    ensures
        crate::query::variables::lookup_from(v, name, i) is Some,
    decreases j - i,
{
    if v[i].0 != name {
        lemma_first_at(v, name, j, i + 1);
    }
}

pub open spec fn replace_needs_label_message() -> Seq<char> {
    "--replace requires --change-label"@
}

pub open spec fn label_needs_replace_message() -> Seq<char> {
    "--change-label requires --replace"@
}

pub open spec fn unsafe_needs_replace_message() -> Seq<char> {
    "--unsafe-change requires --replace"@
}

/// `--replace` and `--change-label` go together, and `--unsafe-change` needs
/// a replacement.
pub fn validate_find_change_args(replace: Option<&String>, change_label: Option<&String>, unsafe_change: bool) -> (r:
    Result<(), String>)
    ensures
        match r {
            Ok(()) => (replace is Some) == (change_label is Some) && (unsafe_change ==> replace is Some),
            Err(e) => (replace is Some && change_label is None && e@ == replace_needs_label_message()) || (
            replace is None && change_label is Some && e@ == label_needs_replace_message()) || (replace is None
                && change_label is None && unsafe_change && e@ == unsafe_needs_replace_message()),
        },
{
    proof {
        reveal_strlit("--replace requires --change-label");
        reveal_strlit("--change-label requires --replace");
        reveal_strlit("--unsafe-change requires --replace");
    }
    match (replace, change_label) {
        (Some(_), None) => Err("--replace requires --change-label".to_owned()),
        (None, Some(_)) => Err("--change-label requires --replace".to_owned()),
        (None, None) => if unsafe_change {
            Err("--unsafe-change requires --replace".to_owned())
        } else {
            Ok(())
        },
        (Some(_), Some(_)) => Ok(()),
    }
}

/// The exit code of a run that went well and found nothing to report.
pub const EXIT_OK: i32 = 0;

/// The exit code of a run whose findings count as a failure.
pub const EXIT_FINDINGS: i32 = 1;

/// The exit code of a run that could not be done.
pub const EXIT_ERROR: i32 = 2;

/// The exit code of a run that went well: findings fail it where they count
/// as a failure (`check` and `test-rules` always; `find` with
/// `--fail-on-match`).
pub fn exit_code(found: bool, fail_on_findings: bool) -> (r: i32)
    ensures
        r == if found && fail_on_findings {
            EXIT_FINDINGS
        } else {
            EXIT_OK
        },
{
    if found && fail_on_findings {
        EXIT_FINDINGS
    } else {
        EXIT_OK
    }
}

/// Where `e` goes into `v`: after every pair whose name `e`'s does not come
/// before, looking from the end.
pub open spec fn pair_insert_pos(v: Seq<(Seq<char>, Seq<char>)>, e: (Seq<char>, Seq<char>)) -> int
    decreases v.len(),
{
    if v.len() == 0 || !chars_less(e.0, v.last().0) {
        v.len() as int
    } else {
        pair_insert_pos(v.drop_last(), e)
    }
}

/// Name/value pairs sorted by name.
pub open spec fn sort_pairs(v: Seq<(Seq<char>, Seq<char>)>) -> Seq<(Seq<char>, Seq<char>)>
    decreases v.len(),
{
    if v.len() == 0 {
        v
    } else {
        let sorted = sort_pairs(v.drop_last());
        sorted.insert(pair_insert_pos(sorted, v.last()), v.last())
    }
}

/// `"name": "value"`, each as `Debug` writes a string.
pub open spec fn debug_pair(e: (Seq<char>, Seq<char>)) -> Seq<char> {
    spec_debug_str(e.0) + ": "@ + spec_debug_str(e.1)
}

pub open spec fn debug_pairs(v: Seq<(Seq<char>, Seq<char>)>) -> Seq<char>
    decreases v.len(),
{
    if v.len() == 0 {
        seq![]
    } else if v.len() == 1 {
        debug_pair(v[0])
    } else {
        debug_pairs(v.drop_last()) + ", "@ + debug_pair(v.last())
    }
}

/// The pairs as `Debug` writes a map of them: `{"a": "1", "b": "2"}`.
pub open spec fn debug_map(v: Seq<(Seq<char>, Seq<char>)>) -> Seq<char> {
    seq!['{'] + debug_pairs(v) + seq!['}']
}

/// The key under which the cache keeps the results of `find`: the query as
/// written and its variables, sorted by name.
pub open spec fn spec_find_cache_key(query: Seq<char>, variables: Seq<(Seq<char>, Seq<char>)>) -> Seq<char> {
    "find|"@ + query + "|vars="@ + debug_map(sort_pairs(variables))
}

fn sorted_pairs(variables: &QueryVariables) -> (r: Vec<(String, String)>)
    ensures
        r@.map_values(|e: (String, String)| (e.0@, e.1@)) == sort_pairs(variables@),
{
    let ghost all = variables@;
    let mut out: Vec<(String, String)> = Vec::new();
    let n = variables.len();
    let mut k: usize = 0;
    assert(all.subrange(0, 0) =~= Seq::<(Seq<char>, Seq<char>)>::empty());
    assert(out@.map_values(|e: (String, String)| (e.0@, e.1@)) =~= sort_pairs(all.subrange(0, 0)));
    while k < n
        invariant
            n == all.len(),
            all == variables@,
            k <= n,
            out@.map_values(|e: (String, String)| (e.0@, e.1@)) == sort_pairs(all.subrange(0, k as int)),
        decreases n - k,
    {
        let (name, value) = variables.entry(k);
        let name = name.clone();
        let value = value.clone();
        let ghost ev = (name@, value@);
        let ghost sorted = out@.map_values(|e: (String, String)| (e.0@, e.1@));
        let key = chars_of(name.as_str());
        let mut p: usize = out.len();
        assert(sorted.subrange(0, p as int) =~= sorted);
        while p > 0 && chars_less_exec(&key, &chars_of(out[p - 1].0.as_str()))
            invariant
                p <= out@.len(),
                sorted == out@.map_values(|e: (String, String)| (e.0@, e.1@)),
                key@ == ev.0,
                pair_insert_pos(sorted, ev) == pair_insert_pos(sorted.subrange(0, p as int), ev),
            decreases p,
        {
            proof {
                let pre = sorted.subrange(0, p as int);
                assert(pre.last() == sorted[p - 1]);
                assert(pre.drop_last() =~= sorted.subrange(0, p - 1));
            }
            p = p - 1;
        }
        proof {
            let pre = sorted.subrange(0, p as int);
            if p > 0 {
                assert(pre.last() == sorted[p - 1]);
            }
            assert(pair_insert_pos(pre, ev) == p);
        }
        out.insert(p, (name, value));
        proof {
            let prefix = all.subrange(0, k + 1);
            assert(prefix.drop_last() =~= all.subrange(0, k as int));
            assert(prefix.last() == ev);
            assert(out@.map_values(|e: (String, String)| (e.0@, e.1@)) =~= sorted.insert(p as int, ev));
        }
        k = k + 1;
    }
    assert(all.subrange(0, n as int) =~= all);
    out
}

/// The cache key of a `find` search with `query` and `variables`.
pub fn find_cache_key(query: &str, variables: &QueryVariables) -> (r: String)
    ensures
        r@ == spec_find_cache_key(query@, variables@),
{
    let pairs = sorted_pairs(variables);
    let ghost pv = pairs@.map_values(|e: (String, String)| (e.0@, e.1@));
    let mut out = chars_of("find|");
    append_chars(&mut out, &chars_of(query));
    append_chars(&mut out, &chars_of("|vars="));
    let ghost start = out@;
    out.push('{');
    let mut i: usize = 0;
    assert(pv.subrange(0, 0) =~= Seq::<(Seq<char>, Seq<char>)>::empty());
    assert(out@ =~= start + seq!['{'] + debug_pairs(pv.subrange(0, 0)));
    while i < pairs.len()
        invariant
            i <= pv.len(),
            pv == pairs@.map_values(|e: (String, String)| (e.0@, e.1@)),
            out@ == start + seq!['{'] + debug_pairs(pv.subrange(0, i as int)),
        decreases pv.len() - i,
    {
        if i > 0 {
            append_chars(&mut out, &chars_of(", "));
        }
        append_chars(&mut out, &chars_of(debug_str(pairs[i].0.as_str()).as_str()));
        append_chars(&mut out, &chars_of(": "));
        append_chars(&mut out, &chars_of(debug_str(pairs[i].1.as_str()).as_str()));
        proof {
            let pre = pv.subrange(0, i + 1);
            assert(pre.drop_last() =~= pv.subrange(0, i as int));
            assert(pre.last() == pv[i as int]);
            if i == 0 {
                assert(pre.len() == 1);
                assert(pre[0] == pv[0]);
            }
            assert(out@ =~= start + seq!['{'] + debug_pairs(pre));
        }
        i = i + 1;
    }
    out.push('}');
    assert(pv.subrange(0, pv.len() as int) =~= pv);
    assert(out@ =~= "find|"@ + query@ + "|vars="@ + debug_map(pv));
    string_of(&out)
}

} // verus!
