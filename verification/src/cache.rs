//! The search cache: one content hash per file, and per file the findings
//! of each query or rule that ran on it.
use vstd::prelude::*;
use crate::report::{duplicate_findings, findings_view, Finding, FindingView};
use crate::files::{normalize, normalized};
use crate::text::{chars_eq, chars_of, string_of};

verus! {

/// The entry with key `k` in a list of keyed entries, the first one where
/// there are several.
pub open spec fn lookup_key<V>(v: Seq<(Seq<char>, V)>, k: Seq<char>) -> Option<V>
    decreases v.len(),
{
    if v.len() == 0 {
        None
    } else if v[0].0 == k {
        Some(v[0].1)
    } else {
        lookup_key(v.drop_first(), k)
    }
}

pub open spec fn keys_distinct<V>(v: Seq<(Seq<char>, V)>) -> bool {
    forall|i: int, j: int| 0 <= i < j < v.len() ==> v[i].0 != v[j].0
}

/// `v` with key `k` set to `x`: replaced in place where `k` is present,
/// added at the end otherwise.
pub open spec fn insert_key<V>(v: Seq<(Seq<char>, V)>, k: Seq<char>, x: V) -> Seq<(Seq<char>, V)>
    decreases v.len(),
{
    if v.len() == 0 {
        seq![(k, x)]
    } else if v[0].0 == k {
        v.update(0, (k, x))
    } else {
        seq![v[0]] + insert_key(v.drop_first(), k, x)
    }
}

/// `v` without key `k`.
pub open spec fn remove_key<V>(v: Seq<(Seq<char>, V)>, k: Seq<char>) -> Seq<(Seq<char>, V)>
    decreases v.len(),
{
    if v.len() == 0 {
        v
    } else if v[0].0 == k {
        remove_key(v.drop_first(), k)
    } else {
        seq![v[0]] + remove_key(v.drop_first(), k)
    }
}

pub proof fn lemma_lookup_insert<V>(v: Seq<(Seq<char>, V)>, k: Seq<char>, x: V, other: Seq<char>)
    ensures
        lookup_key(insert_key(v, k, x), k) == Some(x),
        other != k ==> lookup_key(insert_key(v, k, x), other) == lookup_key(v, other),
    decreases v.len(),
{
    let w = insert_key(v, k, x);
    if v.len() == 0 {
        assert(w == seq![(k, x)]);
        assert(w.drop_first() =~= Seq::<(Seq<char>, V)>::empty());
        assert(w[0].0 == k);
    } else if v[0].0 == k {
        assert(w == v.update(0, (k, x)));
        assert(w[0] == (k, x));
        assert(w.drop_first() =~= v.drop_first());
        if other != k {
            assert(lookup_key(w, other) == lookup_key(w.drop_first(), other));
            assert(lookup_key(v, other) == lookup_key(v.drop_first(), other));
        }
    } else {
        lemma_lookup_insert(v.drop_first(), k, x, other);
        assert(w == seq![v[0]] + insert_key(v.drop_first(), k, x));
        assert(w.drop_first() =~= insert_key(v.drop_first(), k, x));
        assert(w[0] == v[0]);
    }
}

pub proof fn lemma_lookup_remove<V>(v: Seq<(Seq<char>, V)>, k: Seq<char>, other: Seq<char>)
    ensures
        lookup_key(remove_key(v, k), k) is None,
        other != k ==> lookup_key(remove_key(v, k), other) == lookup_key(v, other),
    decreases v.len(),
{
    if v.len() > 0 {
        lemma_lookup_remove(v.drop_first(), k, other);
        if v[0].0 != k {
            let w = remove_key(v, k);
            assert(w.drop_first() =~= remove_key(v.drop_first(), k));
        }
    }
}

pub proof fn lemma_insert_distinct<V>(v: Seq<(Seq<char>, V)>, k: Seq<char>, x: V)
    requires
        keys_distinct(v),
    ensures
        keys_distinct(insert_key(v, k, x)),
        forall|j: int|
            0 <= j < insert_key(v, k, x).len() ==> (#[trigger] insert_key(v, k, x)[j]).0 == k
                || exists|i: int| 0 <= i < v.len() && v[i].0 == insert_key(v, k, x)[j].0,
    decreases v.len(),
{
    let w = insert_key(v, k, x);
    if v.len() > 0 && v[0].0 != k {
        let rest = v.drop_first();
        assert(keys_distinct(rest)) by {
            assert forall|i: int, j: int| 0 <= i < j < rest.len() implies rest[i].0 != rest[j].0 by {
                assert(rest[i] == v[i + 1]);
                assert(rest[j] == v[j + 1]);
            }
        }
        lemma_insert_distinct(rest, k, x);
        let wr = insert_key(rest, k, x);
        assert(w =~= seq![v[0]] + wr);
        assert forall|j: int| 0 <= j < wr.len() implies wr[j].0 != v[0].0 by {
            if wr[j].0 != k {
                let i = choose|i: int| 0 <= i < rest.len() && rest[i].0 == wr[j].0;
                assert(rest[i] == v[i + 1]);
            }
        }
        assert forall|a: int, b: int| 0 <= a < b < w.len() implies w[a].0 != w[b].0 by {
            if a == 0 {
                assert(w[b] == wr[b - 1]);
            } else {
                assert(w[a] == wr[a - 1]);
                assert(w[b] == wr[b - 1]);
            }
        }
        assert forall|j: int| 0 <= j < w.len() implies (#[trigger] w[j]).0 == k || exists|i: int|
            0 <= i < v.len() && v[i].0 == w[j].0 by {
            if j == 0 {
                assert(v[0].0 == w[0].0);
            } else {
                assert(w[j] == wr[j - 1]);
                if wr[j - 1].0 != k {
                    let i = choose|i: int| 0 <= i < rest.len() && rest[i].0 == wr[j - 1].0;
                    assert(v[i + 1].0 == w[j].0);
                }
            }
        }
    } else if v.len() > 0 {
        assert forall|j: int| 0 <= j < w.len() implies (#[trigger] w[j]).0 == k || exists|i: int|
            0 <= i < v.len() && v[i].0 == w[j].0 by {
            if j > 0 {
                assert(v[j].0 == w[j].0);
            }
        }
    }
}

pub proof fn lemma_remove_distinct<V>(v: Seq<(Seq<char>, V)>, k: Seq<char>)
    requires
        keys_distinct(v),
    ensures
        keys_distinct(remove_key(v, k)),
        forall|j: int|
            0 <= j < remove_key(v, k).len() ==> exists|i: int|
                0 <= i < v.len() && v[i].0 == (#[trigger] remove_key(v, k)[j]).0,
    decreases v.len(),
{
    if v.len() > 0 {
        let rest = v.drop_first();
        assert(keys_distinct(rest)) by {
            assert forall|i: int, j: int| 0 <= i < j < rest.len() implies rest[i].0 != rest[j].0 by {
                assert(rest[i] == v[i + 1]);
                assert(rest[j] == v[j + 1]);
            }
        }
        lemma_remove_distinct(rest, k);
        let wr = remove_key(rest, k);
        let w = remove_key(v, k);
        assert forall|j: int| 0 <= j < wr.len() implies exists|i: int|
            0 <= i < v.len() && v[i].0 == (#[trigger] wr[j]).0 by {
            let i = choose|i: int| 0 <= i < rest.len() && rest[i].0 == wr[j].0;
            assert(v[i + 1].0 == wr[j].0);
        }
        if v[0].0 != k {
            assert(w =~= seq![v[0]] + wr);
            assert forall|j: int| 0 <= j < wr.len() implies wr[j].0 != v[0].0 by {
                let i = choose|i: int| 0 <= i < rest.len() && rest[i].0 == wr[j].0;
                assert(rest[i] == v[i + 1]);
            }
            assert forall|a: int, b: int| 0 <= a < b < w.len() implies w[a].0 != w[b].0 by {
                if a == 0 {
                    assert(w[b] == wr[b - 1]);
                } else {
                    assert(w[a] == wr[a - 1]);
                    assert(w[b] == wr[b - 1]);
                }
            }
            assert forall|j: int| 0 <= j < w.len() implies exists|i: int|
                0 <= i < v.len() && v[i].0 == (#[trigger] w[j]).0 by {
                if j == 0 {
                    assert(v[0].0 == w[0].0);
                } else {
                    assert(w[j] == wr[j - 1]);
                }
            }
        }
    }
}

/// What the cache holds for one file: the hash of its content, and the
/// findings of each query or rule, by result key.
pub struct CachedFile {
    pub hash: String,
    pub results: Vec<(String, Vec<Finding>)>,
}

pub struct CachedFileView {
    pub hash: Seq<char>,
    pub results: Seq<(Seq<char>, Seq<FindingView>)>,
}

pub open spec fn result_view(e: (String, Vec<Finding>)) -> (Seq<char>, Seq<FindingView>) {
    (e.0@, findings_view(e.1@))
}

impl View for CachedFile {
    type V = CachedFileView;

    open spec fn view(&self) -> CachedFileView {
        CachedFileView { hash: self.hash@, results: self.results@.map_values(|e: (String, Vec<Finding>)| result_view(e)) }
    }
}

pub open spec fn file_view(e: (String, CachedFile)) -> (Seq<char>, CachedFileView) {
    (e.0@, e.1@)
}

pub open spec fn files_view(v: Seq<(String, CachedFile)>) -> Seq<(Seq<char>, CachedFileView)> {
    v.map_values(|e: (String, CachedFile)| file_view(e))
}

/// The findings cached for `file` under `key`, where the file still has `hash`.
pub open spec fn spec_findings(
    files: Seq<(Seq<char>, CachedFileView)>,
    file: Seq<char>,
    hash: Seq<char>,
    key: Seq<char>,
) -> Option<Seq<FindingView>> {
    match lookup_key(files, file) {
        None => None,
        Some(cached) => if cached.hash != hash {
            None
        } else {
            lookup_key(cached.results, key)
        },
    }
}

/// The cache after storing `findings` for `file` with `hash` under `key`: a
/// file whose hash changed loses the results it had.
pub open spec fn spec_store(
    files: Seq<(Seq<char>, CachedFileView)>,
    file: Seq<char>,
    hash: Seq<char>,
    key: Seq<char>,
    findings: Seq<FindingView>,
) -> Seq<(Seq<char>, CachedFileView)> {
    let results = match lookup_key(files, file) {
        Some(cached) => if cached.hash == hash {
            cached.results
        } else {
            seq![]
        },
        None => seq![],
    };
    insert_key(files, file, CachedFileView { hash, results: insert_key(results, key, findings) })
}

/// The entry of one file after keeping the results under `key` only where
/// the file is among `current`.
pub open spec fn retained_results(
    entry: (Seq<char>, CachedFileView),
    key: Seq<char>,
    current: Seq<Seq<char>>,
) -> Seq<(Seq<char>, Seq<FindingView>)> {
    if current.contains(entry.0) {
        entry.1.results
    } else {
        remove_key(entry.1.results, key)
    }
}

/// The cache after dropping the results under `key` of files not among
/// `current`, and then the files left without results.
pub open spec fn spec_retain(
    files: Seq<(Seq<char>, CachedFileView)>,
    key: Seq<char>,
    current: Seq<Seq<char>>,
) -> Seq<(Seq<char>, CachedFileView)>
    decreases files.len(),
{
    if files.len() == 0 {
        files
    } else {
        let results = retained_results(files[0], key, current);
        let rest = spec_retain(files.drop_first(), key, current);
        if results.len() > 0 {
            seq![(files[0].0, CachedFileView { hash: files[0].1.hash, results })] + rest
        } else {
            rest
        }
    }
}

pub open spec fn cache_wf(files: Seq<(Seq<char>, CachedFileView)>) -> bool {
    keys_distinct(files) && forall|i: int| 0 <= i < files.len() ==> keys_distinct(#[trigger] files[i].1.results)
}

/// The cache of one search root: where it is stored, the directory that
/// file keys are relative to, and its entries.
pub struct SearchCache {
    path: String,
    base: String,
    files: Vec<(String, CachedFile)>,
}

impl View for SearchCache {
    type V = Seq<(Seq<char>, CachedFileView)>;

    closed spec fn view(&self) -> Seq<(Seq<char>, CachedFileView)> {
        files_view(self.files@)
    }
}

/// The position of the entry with key `k`.
fn position_of_result(v: &Vec<(String, Vec<Finding>)>, k: &[char]) -> (r: Option<usize>)
    ensures
        r matches Some(i) ==> i < v@.len() && v@[i as int].0@ == k@ && forall|j: int|
            0 <= j < i ==> v@[j].0@ != k@,
        r is None ==> forall|j: int| 0 <= j < v@.len() ==> v@[j].0@ != k@,
{
    let mut i: usize = 0;
    while i < v.len()
        invariant
            i <= v@.len(),
            forall|j: int| 0 <= j < i ==> v@[j].0@ != k@,
        decreases v@.len() - i,
    {
        if chars_eq(&chars_of(v[i].0.as_str()), k) {
            return Some(i);
        }
        i = i + 1;
    }
    None
}

fn position_of_file(v: &Vec<(String, CachedFile)>, k: &[char]) -> (r: Option<usize>)
    ensures
        r matches Some(i) ==> i < v@.len() && v@[i as int].0@ == k@ && forall|j: int|
            0 <= j < i ==> v@[j].0@ != k@,
        r is None ==> forall|j: int| 0 <= j < v@.len() ==> v@[j].0@ != k@,
{
    let mut i: usize = 0;
    while i < v.len()
        invariant
            i <= v@.len(),
            forall|j: int| 0 <= j < i ==> v@[j].0@ != k@,
        decreases v@.len() - i,
    {
        if chars_eq(&chars_of(v[i].0.as_str()), k) {
            return Some(i);
        }
        i = i + 1;
    }
    None
}

proof fn lemma_lookup_at<V>(v: Seq<(Seq<char>, V)>, k: Seq<char>, i: int)
    requires
        0 <= i < v.len(),
        v[i].0 == k,
        forall|j: int| 0 <= j < i ==> v[j].0 != k,
    ensures
        lookup_key(v, k) == Some(v[i].1),
    decreases i,
{
    if i > 0 {
        lemma_lookup_at(v.drop_first(), k, i - 1);
    }
}

proof fn lemma_lookup_absent<V>(v: Seq<(Seq<char>, V)>, k: Seq<char>)
    requires
        forall|j: int| 0 <= j < v.len() ==> v[j].0 != k,
    ensures
        lookup_key(v, k) is None,
    decreases v.len(),
{
    if v.len() > 0 {
        lemma_lookup_absent(v.drop_first(), k);
    }
}

proof fn lemma_insert_at<V>(v: Seq<(Seq<char>, V)>, k: Seq<char>, x: V, i: int)
    requires
        0 <= i < v.len(),
        v[i].0 == k,
        forall|j: int| 0 <= j < i ==> v[j].0 != k,
    ensures
        insert_key(v, k, x) == v.update(i, (k, x)),
    decreases i,
{
    if i > 0 {
        lemma_insert_at(v.drop_first(), k, x, i - 1);
        assert(insert_key(v, k, x) =~= v.update(i, (k, x)));
    }
}

proof fn lemma_insert_absent<V>(v: Seq<(Seq<char>, V)>, k: Seq<char>, x: V)
    requires
        forall|j: int| 0 <= j < v.len() ==> v[j].0 != k,
    ensures
        insert_key(v, k, x) == v.push((k, x)),
    decreases v.len(),
{
    if v.len() > 0 {
        lemma_insert_absent(v.drop_first(), k, x);
        assert(insert_key(v, k, x) =~= v.push((k, x)));
    } else {
        assert(insert_key(v, k, x) =~= v.push((k, x)));
    }
}

/// Sets key `k` to `x` in a list of results.
fn set_result(v: &mut Vec<(String, Vec<Finding>)>, k: String, x: Vec<Finding>)
    ensures
        final(v)@.map_values(|e: (String, Vec<Finding>)| result_view(e)) == insert_key(
            old(v)@.map_values(|e: (String, Vec<Finding>)| result_view(e)),
            k@,
            findings_view(x@),
        ),
{
    let ghost before = v@.map_values(|e: (String, Vec<Finding>)| result_view(e));
    let key = chars_of(k.as_str());
    match position_of_result(v, &key) {
        Some(i) => {
            proof {
                lemma_insert_at(before, k@, findings_view(x@), i as int);
            }
            v.set(i, (k, x));
            assert(v@.map_values(|e: (String, Vec<Finding>)| result_view(e)) =~= before.update(
                i as int,
                (key@, findings_view(x@)),
            ));
        },
        None => {
            proof {
                lemma_insert_absent(before, k@, findings_view(x@));
            }
            v.push((k, x));
            assert(v@.map_values(|e: (String, Vec<Finding>)| result_view(e)) =~= before.push(
                (key@, findings_view(x@)),
            ));
        },
    }
}

/// Removes key `k` from a list of results.
fn drop_result(v: &mut Vec<(String, Vec<Finding>)>, k: &[char])
    ensures
        final(v)@.map_values(|e: (String, Vec<Finding>)| result_view(e)) == remove_key(
            old(v)@.map_values(|e: (String, Vec<Finding>)| result_view(e)),
            k@,
        ),
{
    let ghost before = v@.map_values(|e: (String, Vec<Finding>)| result_view(e));
    let mut kept: Vec<(String, Vec<Finding>)> = Vec::new();
    let mut rest: Vec<(String, Vec<Finding>)> = Vec::new();
    std::mem::swap(&mut rest, v);
    assert(rest@.map_values(|e: (String, Vec<Finding>)| result_view(e)) == before);
    let n_total = rest.len();
    let mut i: usize = 0;
    proof {
        assert(kept@.map_values(|e: (String, Vec<Finding>)| result_view(e)) + remove_key(
            before.subrange(0, before.len() as int),
            k@,
        ) =~= remove_key(before, k@)) by {
            assert(before.subrange(0, before.len() as int) =~= before);
        }
    }
    while rest.len() > 0
        invariant
            i <= before.len(),
            before.len() == n_total,
            rest@.map_values(|e: (String, Vec<Finding>)| result_view(e)) == before.subrange(
                i as int,
                before.len() as int,
            ),
            kept@.map_values(|e: (String, Vec<Finding>)| result_view(e)) + remove_key(
                before.subrange(i as int, before.len() as int),
                k@,
            ) == remove_key(before, k@),
        decreases rest@.len(),
    {
        let ghost tail = before.subrange(i as int, before.len() as int);
        let ghost kv = kept@.map_values(|e: (String, Vec<Finding>)| result_view(e));
        let e = rest.remove(0);
        proof {
            assert(tail[0] == result_view(e));
            assert(tail.drop_first() =~= before.subrange(i + 1, before.len() as int));
            assert(rest@.map_values(|e: (String, Vec<Finding>)| result_view(e)) =~= tail.drop_first());
        }
        if !chars_eq(&chars_of(e.0.as_str()), k) {
            kept.push(e);
            proof {
                assert(kept@.map_values(|e: (String, Vec<Finding>)| result_view(e)) =~= kv.push(tail[0]));
                assert(remove_key(tail, k@) == seq![tail[0]] + remove_key(tail.drop_first(), k@));
                assert(kv.push(tail[0]) + remove_key(tail.drop_first(), k@) =~= kv + (seq![tail[0]]
                    + remove_key(tail.drop_first(), k@)));
            }
        }
        i = i + 1;
    }
    proof {
        assert(before.subrange(i as int, before.len() as int).len() == 0);
        assert(kept@.map_values(|e: (String, Vec<Finding>)| result_view(e)) =~= remove_key(
            before,
            k@,
        ));
    }
    *v = kept;
}

impl SearchCache {
    #[verifier::type_invariant]
    closed spec fn well_formed(self) -> bool {
        cache_wf(files_view(self.files@))
    }

    /// An empty cache stored at `path`, with file keys relative to `base`.
    pub fn new(path: String, base: String) -> (r: Self)
        ensures
            r@ == Seq::<(Seq<char>, CachedFileView)>::empty(),
            r.path()@ == path@,
            r.base()@ == base@,
    {
        let r = SearchCache { path, base, files: Vec::new() };
        assert(files_view(r.files@) =~= Seq::<(Seq<char>, CachedFileView)>::empty());
        r
    }

    pub closed spec fn path(&self) -> String {
        self.path
    }

    pub closed spec fn base(&self) -> String {
        self.base
    }

    /// Where the cache is stored.
    pub fn path_text(&self) -> (r: &String)
        ensures
            r@ == self.path()@,
    {
        &self.path
    }

    /// The directory that file keys are relative to.
    pub fn base_text(&self) -> (r: &String)
        ensures
            r@ == self.base()@,
    {
        &self.base
    }

    /// The entries, each file once.
    pub fn entries(&self) -> (r: &Vec<(String, CachedFile)>)
        ensures
            files_view(r@) == self@,
            cache_wf(self@),
    {
        proof {
            use_type_invariant(self);
        }
        &self.files
    }

    /// The cache key of the file at `path`: the path relative to the cache's
    /// base directory where it lies below it (`Path::strip_prefix`), with `/`
    /// for `\`.
    pub fn file_key(&self, path: &str) -> (r: String)
        ensures
            r@ == normalized(
                match spec_strip_path_prefix(path@, self.base()@) {
                    Some(relative) => relative,
                    None => path@,
                },
            ),
    {
        let relative = match strip_path_prefix(path, self.base.as_str()) {
            Some(relative) => relative,
            None => string_of(&chars_of(path)),
        };
        normalize(relative.as_str())
    }

    /// The findings cached for `file` under `result_key`, where the file
    /// still has `hash`.
    pub fn findings(&self, file: &str, hash: &str, result_key: &str) -> (r: Option<Vec<Finding>>)
        ensures
            match r {
                Some(f) => spec_findings(self@, file@, hash@, result_key@) == Some(findings_view(f@)),
                None => spec_findings(self@, file@, hash@, result_key@) is None,
            },
    {
        let ghost fv = files_view(self.files@);
        let i = match position_of_file(&self.files, &chars_of(file)) {
            Some(i) => i,
            None => {
                proof {
                    lemma_lookup_absent(fv, file@);
                }
                return None;
            },
        };
        proof {
            lemma_lookup_at(fv, file@, i as int);
        }
        let cached = &self.files[i].1;
        if !chars_eq(&chars_of(cached.hash.as_str()), &chars_of(hash)) {
            return None;
        }
        let ghost rv = cached@.results;
        match position_of_result(&cached.results, &chars_of(result_key)) {
            Some(j) => {
                proof {
                    lemma_lookup_at(rv, result_key@, j as int);
                }
                Some(duplicate_findings(&cached.results[j].1))
            },
            None => {
                proof {
                    lemma_lookup_absent(rv, result_key@);
                }
                None
            },
        }
    }

    /// Stores `findings` for `file` with `hash` under `result_key`; a file
    /// whose hash changed loses the results it had.
    pub fn store(&mut self, file: &str, hash: &str, result_key: String, findings: Vec<Finding>)
        ensures
            final(self)@ == spec_store(old(self)@, file@, hash@, result_key@, findings_view(findings@)),
            final(self).path() == old(self).path(),
            final(self).base() == old(self).base(),
    {
        proof {
            use_type_invariant(&*self);
        }
        let ghost fv = files_view(self.files@);
        let mut files: Vec<(String, CachedFile)> = Vec::new();
        std::mem::swap(&mut files, &mut self.files);
        let key = chars_of(file);
        let (mut cached, position) = match position_of_file(&files, &key) {
            Some(i) => {
                proof {
                    lemma_lookup_at(fv, file@, i as int);
                }
                let (_, old_entry) = files.remove(i);
                let same = chars_eq(&chars_of(old_entry.hash.as_str()), &chars_of(hash));
                if same {
                    (old_entry, Some(i))
                } else {
                    (CachedFile { hash: string_of(&chars_of(hash)), results: Vec::new() }, Some(i))
                }
            },
            None => {
                proof {
                    lemma_lookup_absent(fv, file@);
                }
                (CachedFile { hash: string_of(&chars_of(hash)), results: Vec::new() }, None)
            },
        };
        proof {
            assert(cached@.results.len() == 0 ==> cached@.results =~= Seq::<(Seq<char>, Seq<FindingView>)>::empty());
        }
        let ghost old_results = cached@.results;
        set_result(&mut cached.results, result_key, findings);
        let ghost entry = CachedFileView { hash: hash@, results: insert_key(old_results, result_key@, findings_view(findings@)) };
        assert(cached@ == entry);
        let name = string_of(&key);
        match position {
            Some(i) => {
                proof {
                    lemma_insert_at(fv, file@, entry, i as int);
                }
                files.insert(i, (name, cached));
                assert(files_view(files@) =~= fv.update(i as int, (file@, entry)));
            },
            None => {
                proof {
                    lemma_insert_absent(fv, file@, entry);
                }
                files.push((name, cached));
                assert(files_view(files@) =~= fv.push((file@, entry)));
            },
        }
        proof {
            lemma_insert_distinct(fv, file@, entry);
            let w = files_view(files@);
            assert forall|i: int| 0 <= i < w.len() implies keys_distinct(#[trigger] w[i].1.results) by {
                if w[i].0 == file@ {
                    lemma_lookup_insert(fv, file@, entry, file@);
                    if exists|j: int| 0 <= j < fv.len() && fv[j].0 == file@ {
                        let j = choose|j: int| 0 <= j < fv.len() && fv[j].0 == file@;
                        assert(keys_distinct(fv[j].1.results));
                    }
                    assert(w[i].1 == entry) by {
                        if exists|j: int| 0 <= j < fv.len() && fv[j].0 == file@ {
                            let j = choose|j: int| 0 <= j < fv.len() && fv[j].0 == file@;
                            assert(w[j].0 == file@);
                        }
                    }
                    lemma_insert_distinct(old_results, result_key@, findings_view(findings@));
                } else {
                    let j = choose|j: int| 0 <= j < fv.len() && fv[j].0 == w[i].0;
                    assert(keys_distinct(fv[j].1.results));
                }
            }
        }
        self.files = files;
    }

    /// Drops the results under `result_key` of files not among
    /// `current_files`, then the files left without results.
    pub fn retain_result_files(&mut self, result_key: &str, current_files: &Vec<String>)
        ensures
            final(self)@ == spec_retain(
                old(self)@,
                result_key@,
                current_files@.map_values(|s: String| s@),
            ),
            final(self).path() == old(self).path(),
            final(self).base() == old(self).base(),
    {
        proof {
            use_type_invariant(&*self);
        }
        let ghost current = current_files@.map_values(|s: String| s@);
        let ghost fv = files_view(self.files@);
        let key = chars_of(result_key);
        let mut rest: Vec<(String, CachedFile)> = Vec::new();
        std::mem::swap(&mut rest, &mut self.files);
        let mut kept: Vec<(String, CachedFile)> = Vec::new();
        let mut i: usize = 0;
        let n_total = rest.len();
        assert(fv.subrange(0, fv.len() as int) =~= fv);
        assert(files_view(kept@) + spec_retain(fv, result_key@, current) =~= spec_retain(fv, result_key@, current));
        while rest.len() > 0
            invariant
                i <= fv.len(),
                fv.len() == n_total,
                current == current_files@.map_values(|s: String| s@),
                key@ == result_key@,
                cache_wf(fv),
                files_view(rest@) == fv.subrange(i as int, fv.len() as int),
                files_view(kept@) + spec_retain(fv.subrange(i as int, fv.len() as int), result_key@, current)
                    == spec_retain(fv, result_key@, current),
                forall|j: int| 0 <= j < kept@.len() ==> exists|m: int| 0 <= m < i && fv[m].0 == (#[trigger] files_view(kept@)[j]).0,
                forall|j: int| 0 <= j < kept@.len() ==> keys_distinct((#[trigger] files_view(kept@)[j]).1.results),
                keys_distinct(files_view(kept@)),
            decreases rest@.len(),
        {
            let ghost tail = fv.subrange(i as int, fv.len() as int);
            let ghost kv = files_view(kept@);
            let (name, mut cached) = rest.remove(0);
            proof {
                assert(tail[0] == (name@, cached@));
                assert(tail.drop_first() =~= fv.subrange(i + 1, fv.len() as int));
                assert(files_view(rest@) =~= tail.drop_first());
                assert(fv[i as int] == tail[0]);
                assert(keys_distinct(fv[i as int].1.results));
            }
            let name_chars = chars_of(name.as_str());
            let mut listed = false;
            let mut j: usize = 0;
            while j < current_files.len()
                invariant
                    j <= current_files@.len(),
                    current == current_files@.map_values(|s: String| s@),
                    name_chars@ == name@,
                    listed == exists|m: int| 0 <= m < j && current[m] == name@,
                decreases current_files@.len() - j,
            {
                let hit = chars_eq(&chars_of(current_files[j].as_str()), &name_chars);
                proof {
                    assert(current[j as int] == current_files@[j as int]@);
                    if exists|m: int| 0 <= m < j + 1 && current[m] == name@ {
                        let m = choose|m: int| 0 <= m < j + 1 && current[m] == name@;
                        if m < j {
                        } else {
                            assert(hit);
                        }
                    }
                }
                if hit {
                    listed = true;
                }
                j = j + 1;
            }
            proof {
                if current.contains(name@) {
                    let m = choose|m: int| 0 <= m < current.len() && current[m] == name@;
                    assert(m < j);
                }
            }
            let ghost results_before = cached@.results;
            if !listed {
                drop_result(&mut cached.results, &key);
            }
            proof {
                assert(cached@.results == retained_results(tail[0], result_key@, current));
                lemma_remove_distinct(results_before, result_key@);
            }
            if cached.results.len() > 0 {
                let ghost entry = (name@, cached@);
                kept.push((name, cached));
                proof {
                    assert(files_view(kept@) =~= kv.push(entry));
                    assert(kv.push(entry) + spec_retain(tail.drop_first(), result_key@, current) =~= kv
                        + (seq![entry] + spec_retain(tail.drop_first(), result_key@, current)));
                    let nk = files_view(kept@);
                    assert forall|a: int| 0 <= a < nk.len() implies exists|m: int|
                        0 <= m < i + 1 && fv[m].0 == (#[trigger] nk[a]).0 by {
                        if a == nk.len() - 1 {
                            assert(fv[i as int].0 == nk[a].0);
                        } else {
                            assert(nk[a] == kv[a]);
                        }
                    }
                    assert forall|a: int, b: int| 0 <= a < b < nk.len() implies nk[a].0 != nk[b].0 by {
                        if b == nk.len() - 1 {
                            assert(nk[a] == kv[a]);
                            let m = choose|m: int| 0 <= m < i && fv[m].0 == kv[a].0;
                            assert(fv[m].0 != fv[i as int].0);
                        } else {
                            assert(nk[a] == kv[a]);
                            assert(nk[b] == kv[b]);
                        }
                    }
                    assert forall|a: int| 0 <= a < nk.len() implies keys_distinct((#[trigger] nk[a]).1.results) by {
                        if a < nk.len() - 1 {
                            assert(nk[a] == kv[a]);
                        }
                    }
                }
            } else {
                proof {
                    assert(spec_retain(tail, result_key@, current) == spec_retain(
                        tail.drop_first(),
                        result_key@,
                        current,
                    ));
                    assert forall|a: int| 0 <= a < kv.len() implies exists|m: int|
                        0 <= m < i + 1 && fv[m].0 == (#[trigger] kv[a]).0 by {
                        let m = choose|m: int| 0 <= m < i && fv[m].0 == kv[a].0;
                    }
                }
            }
            i = i + 1;
        }
        proof {
            assert(fv.subrange(i as int, fv.len() as int).len() == 0);
            assert(files_view(kept@) =~= files_view(kept@) + spec_retain(
                fv.subrange(i as int, fv.len() as int),
                result_key@,
                current,
            ));
        }
        self.files = kept;
    }
}

/// A read gives back what a store wrote: after storing `findings` for `file`
/// with `hash` under `key`, the findings of `file` with `hash` under `key`
/// are those findings.
pub proof fn store_then_findings(
    files: Seq<(Seq<char>, CachedFileView)>,
    file: Seq<char>,
    hash: Seq<char>,
    key: Seq<char>,
    findings: Seq<FindingView>,
)
    ensures
        spec_findings(spec_store(files, file, hash, key, findings), file, hash, key) == Some(findings),
{
    let results = match lookup_key(files, file) {
        Some(cached) => if cached.hash == hash {
            cached.results
        } else {
            seq![]
        },
        None => seq![],
    };
    let entry = CachedFileView { hash, results: insert_key(results, key, findings) };
    lemma_lookup_insert(files, file, entry, file);
    lemma_lookup_insert(results, key, findings, key);
}

/// A store leaves the other results of the same file, with the same hash, as
/// they were, and the results of other files too.
pub proof fn store_keeps_other_results(
    files: Seq<(Seq<char>, CachedFileView)>,
    file: Seq<char>,
    hash: Seq<char>,
    key: Seq<char>,
    findings: Seq<FindingView>,
    other_file: Seq<char>,
    other_hash: Seq<char>,
    other_key: Seq<char>,
)
    requires
        other_file != file || (other_key != key && other_hash == hash && (lookup_key(files, file) matches Some(
            c,
        ) && c.hash == hash)),
    ensures
        spec_findings(spec_store(files, file, hash, key, findings), other_file, other_hash, other_key)
            == spec_findings(files, other_file, other_hash, other_key),
{
    let results = match lookup_key(files, file) {
        Some(cached) => if cached.hash == hash {
            cached.results
        } else {
            seq![]
        },
        None => seq![],
    };
    let entry = CachedFileView { hash, results: insert_key(results, key, findings) };
    lemma_lookup_insert(files, file, entry, other_file);
    lemma_lookup_insert(results, key, findings, other_key);
}

/// A file whose content hash changes keeps only the result just stored.
pub proof fn store_with_new_hash_drops_old_results(
    files: Seq<(Seq<char>, CachedFileView)>,
    file: Seq<char>,
    hash: Seq<char>,
    key: Seq<char>,
    findings: Seq<FindingView>,
    other_key: Seq<char>,
)
    requires
        other_key != key,
        !(lookup_key(files, file) matches Some(c) && c.hash == hash),
    ensures
        spec_findings(spec_store(files, file, hash, key, findings), file, hash, other_key) is None,
{
    let entry = CachedFileView { hash, results: insert_key(seq![], key, findings) };
    lemma_lookup_insert(files, file, entry, file);
    lemma_lookup_insert(Seq::<(Seq<char>, Seq<FindingView>)>::empty(), key, findings, other_key);
}

proof fn lemma_lookup_missing<V>(v: Seq<(Seq<char>, V)>, k: Seq<char>)
    requires
        forall|j: int| 0 <= j < v.len() ==> v[j].0 != k,
    ensures
        lookup_key(v, k) is None,
    decreases v.len(),
{
    if v.len() > 0 {
        let rest = v.drop_first();
        assert forall|j: int| 0 <= j < rest.len() implies rest[j].0 != k by {
            assert(rest[j] == v[j + 1]);
        }
        lemma_lookup_missing(rest, k);
    }
}

/// Keeping the results under `key` of the current files only, entry by
/// entry: a file keeps its hash and its results, less those under `key`
/// where it is not current; a file left without results disappears; no file
/// is added.
pub proof fn retain_entry_by_entry(
    files: Seq<(Seq<char>, CachedFileView)>,
    key: Seq<char>,
    current: Seq<Seq<char>>,
    file: Seq<char>,
)
    requires
        keys_distinct(files),
    ensures
        lookup_key(spec_retain(files, key, current), file) == match lookup_key(files, file) {
            None => None,
            Some(e) => {
                let r = retained_results((file, e), key, current);
                if r.len() > 0 {
                    Some(CachedFileView { hash: e.hash, results: r })
                } else {
                    None
                }
            },
        },
    decreases files.len(),
{
    if files.len() > 0 {
        let rest = files.drop_first();
        assert(keys_distinct(rest)) by {
            assert forall|i: int, j: int| 0 <= i < j < rest.len() implies rest[i].0 != rest[j].0 by {
                assert(rest[i] == files[i + 1]);
                assert(rest[j] == files[j + 1]);
            }
        }
        retain_entry_by_entry(rest, key, current, file);
        let results = retained_results(files[0], key, current);
        let rr = spec_retain(rest, key, current);
        if files[0].0 == file {
            assert forall|j: int| 0 <= j < rest.len() implies rest[j].0 != file by {
                assert(rest[j] == files[j + 1]);
            }
            lemma_lookup_missing(rest, file);
            if results.len() > 0 {
                let head = seq![(files[0].0, CachedFileView { hash: files[0].1.hash, results })];
                assert((head + rr)[0] == head[0]);
            }
        } else if results.len() > 0 {
            let head = seq![(files[0].0, CachedFileView { hash: files[0].1.hash, results })];
            assert((head + rr).drop_first() =~= rr);
        }
    }
}

/// After keeping the results under `key` of the current files only, a file
/// that is not current has no result under `key`, and every other result is
/// as it was.
pub proof fn retain_keeps_current_results(
    files: Seq<(Seq<char>, CachedFileView)>,
    key: Seq<char>,
    current: Seq<Seq<char>>,
    file: Seq<char>,
    hash: Seq<char>,
    other_key: Seq<char>,
)
    requires
        keys_distinct(files),
    ensures
        !current.contains(file) ==> spec_findings(spec_retain(files, key, current), file, hash, key) is None,
        (current.contains(file) || other_key != key) ==> spec_findings(
            spec_retain(files, key, current),
            file,
            hash,
            other_key,
        ) == spec_findings(files, file, hash, other_key),
    decreases files.len(),
{
    if files.len() > 0 {
        let rest = files.drop_first();
        assert(keys_distinct(rest)) by {
            assert forall|i: int, j: int| 0 <= i < j < rest.len() implies rest[i].0 != rest[j].0 by {
                assert(rest[i] == files[i + 1]);
                assert(rest[j] == files[j + 1]);
            }
        }
        retain_keeps_current_results(rest, key, current, file, hash, other_key);
        let results = retained_results(files[0], key, current);
        let r = spec_retain(files, key, current);
        let rr = spec_retain(rest, key, current);
        lemma_lookup_remove(files[0].1.results, key, other_key);
        if files[0].0 == file {
            // The file occurs once: it is not in the rest.
            assert forall|j: int| 0 <= j < rest.len() implies rest[j].0 != file by {
                assert(rest[j] == files[j + 1]);
            }
            lemma_lookup_absent(rest, file);
            lemma_retain_absent(rest, key, current, file);
            lemma_lookup_absent(rr, file);
            if results.len() > 0 {
                assert(r[0].0 == file);
                assert(r[0].1.results == results);
            } else {
                assert(r == rr);
                if !current.contains(file) {
                    lemma_lookup_remove(files[0].1.results, key, key);
                }
                if results.len() == 0 {
                    assert(lookup_key(results, other_key) is None);
                    assert(lookup_key(results, key) is None);
                }
            }
        } else {
            if results.len() > 0 {
                assert(r[0].0 == files[0].0);
                assert(r.drop_first() =~= rr);
            }
        }
    }
}

/// Keeping results never brings in a file that was not there.
proof fn lemma_retain_absent(
    files: Seq<(Seq<char>, CachedFileView)>,
    key: Seq<char>,
    current: Seq<Seq<char>>,
    file: Seq<char>,
)
    requires
        forall|j: int| 0 <= j < files.len() ==> files[j].0 != file,
    ensures
        forall|j: int|
            0 <= j < spec_retain(files, key, current).len() ==> (#[trigger] spec_retain(
                files,
                key,
                current,
            )[j]).0 != file,
    decreases files.len(),
{
    if files.len() > 0 {
        let rest = files.drop_first();
        assert forall|j: int| 0 <= j < rest.len() implies rest[j].0 != file by {
            assert(rest[j] == files[j + 1]);
        }
        lemma_retain_absent(rest, key, current, file);
        let results = retained_results(files[0], key, current);
        let r = spec_retain(files, key, current);
        let rr = spec_retain(rest, key, current);
        if results.len() > 0 {
            assert forall|j: int| 0 <= j < r.len() implies (#[trigger] r[j]).0 != file by {
                if j > 0 {
                    assert(r[j] == rr[j - 1]);
                }
            }
        }
    }
}

/// `Path::strip_prefix` of `base` from `path`, as text.
pub uninterp spec fn spec_strip_path_prefix(path: Seq<char>, base: Seq<char>) -> Option<Seq<char>>;

/// `std::path::Path::strip_prefix`: `path` relative to `base` where `base`'s
/// components begin it, written back as text.
#[verifier::external_body]
pub(crate) fn strip_path_prefix(path: &str, base: &str) -> (r: Option<String>)
    ensures
        match r {
            Some(relative) => spec_strip_path_prefix(path@, base@) == Some(relative@),
            None => spec_strip_path_prefix(path@, base@) is None,
        },
{
    std::path::Path::new(path).strip_prefix(base).ok().map(|relative| relative.to_string_lossy().into_owned())
}

// ---- Content hashes ----

/// One step of FNV-1a: the byte mixed in, then multiplied by the prime,
/// wrapping at 64 bits.
pub open spec fn fnv_step(hash: u64, byte: u8) -> u64 {
    (hash ^ (byte as u64)).wrapping_mul(0x100000001b3u64)
}

/// FNV-1a over `bytes` from `seed`.
pub open spec fn spec_fnv1a(bytes: Seq<u8>, seed: u64) -> u64
    decreases bytes.len(),
{
    if bytes.len() == 0 {
        seed
    } else {
        fnv_step(spec_fnv1a(bytes.drop_last(), seed), bytes.last())
    }
}

fn fnv1a(source: &[u8], seed: u64) -> (r: u64)
    ensures
        r == spec_fnv1a(source@, seed),
{
    let mut hash = seed;
    let mut i: usize = 0;
    while i < source.len()
        invariant
            i <= source@.len(),
            hash == spec_fnv1a(source@.subrange(0, i as int), seed),
        decreases source@.len() - i,
    {
        assert(source@.subrange(0, i + 1).drop_last() =~= source@.subrange(0, i as int));
        hash = (hash ^ (source[i] as u64)).wrapping_mul(0x100000001b3u64);
        i = i + 1;
    }
    assert(source@.subrange(0, source@.len() as int) =~= source@);
    hash
}

pub open spec fn hex_char(d: nat) -> char {
    if d < 10 {
        (('0' as u32) + d) as char
    } else {
        (('a' as u32) + (d - 10)) as char
    }
}

/// The last `k` hex digits of `n`, most significant first, lower case.
pub open spec fn spec_hex(n: nat, k: nat) -> Seq<char>
    decreases k,
{
    if k == 0 {
        seq![]
    } else {
        spec_hex(n / 16, (k - 1) as nat).push(hex_char(n % 16))
    }
}

fn hex_digit(d: u64) -> (r: char)
    requires
        d < 16,
    ensures
        r == hex_char(d as nat),
{
    let c = match d {
        0 => '0',
        1 => '1',
        2 => '2',
        3 => '3',
        4 => '4',
        5 => '5',
        6 => '6',
        7 => '7',
        8 => '8',
        9 => '9',
        10 => 'a',
        11 => 'b',
        12 => 'c',
        13 => 'd',
        14 => 'e',
        _ => 'f',
    };
    c
}

fn push_hex(out: &mut Vec<char>, n: u64, k: usize)
    ensures
        final(out)@ == old(out)@ + spec_hex(n as nat, k as nat),
    decreases k,
{
    if k == 0 {
        assert(old(out)@ + spec_hex(n as nat, 0) =~= old(out)@);
        return;
    }
    push_hex(out, n / 16, k - 1);
    let c = hex_digit(n % 16);
    out.push(c);
    assert(out@ =~= old(out)@ + spec_hex(n as nat, k as nat));
}

/// Two FNV-1a hashes of the content, from two seeds, as 32 lower-case hex digits.
pub open spec fn spec_content_hash(source: Seq<u8>) -> Seq<char> {
    spec_hex(spec_fnv1a(source, 0xcbf29ce484222325u64) as nat, 16) + spec_hex(
        spec_fnv1a(source, 0x84222325cbf29ce4u64) as nat,
        16,
    )
}

/// The hash that the cache keeps of a file's content.
pub fn content_hash(source: &[u8]) -> (r: String)
    ensures
        r@ == spec_content_hash(source@),
{
    let first = fnv1a(source, 0xcbf29ce484222325u64);
    let second = fnv1a(source, 0x84222325cbf29ce4u64);
    let mut out: Vec<char> = Vec::new();
    push_hex(&mut out, first, 16);
    push_hex(&mut out, second, 16);
    assert(out@ =~= spec_content_hash(source@));
    string_of(&out)
}

} // verus!
