//! Dependencies as (name, version) pairs, the name-keyed deduplicating
//! map used for closure results, and sorting by name.

use vstd::prelude::*;
use vstd::multiset::Multiset;
use vstd::pervasive::VecAdditionalExecFns;
use crate::text::{lex_le, str_lex_le, lemma_lex_le_total, lemma_lex_le_trans};

verus! {

/// One dependency to document: a package name and the version chosen
/// for it. The version may be empty when only a name is known.
#[derive(Debug)]
pub struct Dependency {
    pub name: String,
    pub version: String,
}

/// Whether some entry of `s` carries the name `n`.
pub open spec fn seq_contains_name(s: Seq<Dependency>, n: Seq<char>) -> bool {
    exists|i: int| 0 <= i < s.len() && #[trigger] s[i].name@ == n
}

/// Entries of `s` carry pairwise distinct names.
pub open spec fn names_unique(s: Seq<Dependency>) -> bool {
    forall|i: int, j: int|
        0 <= i < j < s.len() ==> #[trigger] s[i].name@ != #[trigger] s[j].name@
}

/// Entries of `s` are ordered by name.
pub open spec fn sorted_by_name(s: Seq<Dependency>) -> bool {
    forall|i: int, j: int|
        0 <= i < j < s.len() ==> lex_le(#[trigger] s[i].name@, #[trigger] s[j].name@)
}

/// A mapping from dependency name to one chosen version.
///
/// Inserting an entry whose name is already present overwrites the
/// version (last write wins); which version survives therefore depends
/// on insertion order, exactly as the callers require.
pub struct DepMap {
    pub entries: Vec<Dependency>,
}

impl DepMap {
    /// Names are unique: the map invariant.
    pub open spec fn wf(self) -> bool {
        names_unique(self.entries@)
    }

    pub open spec fn spec_entries(self) -> Seq<Dependency> {
        self.entries@
    }

    pub open spec fn spec_contains_name(self, n: Seq<char>) -> bool {
        seq_contains_name(self.entries@, n)
    }

    /// The version stored for name `n` (meaningful only when `n` is present).
    pub open spec fn spec_version_of(self, n: Seq<char>) -> Seq<char> {
        spec_version_at(self.entries@, n)
    }

    pub fn new() -> (r: DepMap)
        ensures
            r.wf(),
            r.spec_entries().len() == 0,
    {
        DepMap { entries: Vec::new() }
    }

    /// Index of the entry carrying `name`, if any.
    fn find_name(&self, name: &String) -> (r: Option<usize>)
        ensures
            match r {
                Some(i) => 0 <= i < self.entries@.len() && self.entries@[i as int].name@ == name@,
                None => !self.spec_contains_name(name@),
            },
    {
        let n = self.entries.len();
        let mut i: usize = 0;
        while i < n
            invariant
                n == self.entries@.len(),
                i <= n,
                forall|j: int| 0 <= j < i ==> #[trigger] self.entries@[j].name@ != name@,
            decreases n - i,
        {
            if self.entries[i].name == *name {
                return Some(i);
            }
            i = i + 1;
        }
        None
    }

    /// Records `version` for `name`, overwriting any earlier version
    /// stored under the same name and leaving every other name untouched.
    pub fn insert(&mut self, name: String, version: String)
        requires
            old(self).wf(),
        ensures
            final(self).wf(),
            final(self).spec_contains_name(name@),
            final(self).spec_version_of(name@) == version@,
            forall|m: Seq<char>|
                m != name@ ==> #[trigger] final(self).spec_contains_name(m)
                    == old(self).spec_contains_name(m),
            forall|m: Seq<char>|
                m != name@ && old(self).spec_contains_name(m)
                    ==> #[trigger] final(self).spec_version_of(m) == old(self).spec_version_of(m),
    {
        let ghost pre = self.entries@;
        match self.find_name(&name) {
            Some(i) => {
                let ghost nm = name@;
                self.entries.set(i, Dependency { name, version });
                proof {
                    let post = self.entries@;
                    assert(post == pre.update(i as int, post[i as int]));
                    assert forall|a: int, b: int|
                        0 <= a < b < post.len() implies #[trigger] post[a].name@
                        != #[trigger] post[b].name@ by {
                        assert(post[a].name@ == pre[a].name@);
                        assert(post[b].name@ == pre[b].name@);
                    }
                    lemma_version_at(post, i as int);
                    assert forall|m: Seq<char>|
                        m != nm implies #[trigger] seq_contains_name(post, m) == seq_contains_name(
                        pre,
                        m,
                    ) by {
                        lemma_pointwise_names(pre, post, m);
                    }
                    assert forall|m: Seq<char>|
                        m != nm && seq_contains_name(pre, m) implies #[trigger] spec_version_at(
                        post,
                        m,
                    ) == spec_version_at(pre, m) by {
                        let j = choose|j: int| 0 <= j < pre.len() && #[trigger] pre[j].name@ == m;
                        assert(post[j].name@ == m);
                        lemma_version_unique(pre, j, m);
                        lemma_version_unique(post, j, m);
                        assert(post[j].version@ == pre[j].version@);
                    }
                }
            },
            None => {
                let ghost nm = name@;
                self.entries.push(Dependency { name, version });
                proof {
                    let post = self.entries@;
                    assert(post == pre.push(post.last()));
                    assert(post.last().name@ == nm);
                    assert forall|a: int, b: int|
                        0 <= a < b < post.len() implies #[trigger] post[a].name@
                        != #[trigger] post[b].name@ by {
                        if b < post.len() - 1 {
                            assert(post[a].name@ == pre[a].name@);
                            assert(post[b].name@ == pre[b].name@);
                        } else {
                            assert(post[a].name@ == pre[a].name@);
                            assert(!seq_contains_name(pre, nm));
                        }
                    }
                    lemma_version_at(post, post.len() - 1);
                    assert forall|m: Seq<char>|
                        m != nm implies #[trigger] seq_contains_name(post, m) == seq_contains_name(
                        pre,
                        m,
                    ) by {
                        lemma_pointwise_names(pre, post, m);
                    }
                    assert forall|m: Seq<char>|
                        m != nm && seq_contains_name(pre, m) implies #[trigger] spec_version_at(
                        post,
                        m,
                    ) == spec_version_at(pre, m) by {
                        let j = choose|j: int| 0 <= j < pre.len() && #[trigger] pre[j].name@ == m;
                        assert(post[j].name@ == m);
                        lemma_version_unique(pre, j, m);
                        lemma_version_unique(post, j, m);
                    }
                }
            },
        }
    }

    /// Hands the entries out, sorted by name.
    pub fn into_sorted_entries(self) -> (r: Vec<Dependency>)
        requires
            self.wf(),
        ensures
            sorted_by_name(r@),
            r@.to_multiset() == self.spec_entries().to_multiset(),
            names_unique(r@),
            forall|m: Seq<char>|
                #[trigger] seq_contains_name(r@, m) == self.spec_contains_name(m),
    {
        let ghost orig = self.entries@;
        let out = sort_dependencies(self.entries);
        proof {
            lemma_multiset_names(orig, out@);
            lemma_sorted_unique_names(orig, out@);
        }
        out
    }
}

/// Sorts dependencies by name; the result is a permutation of the input.
pub fn sort_dependencies(v: Vec<Dependency>) -> (r: Vec<Dependency>)
    ensures
        sorted_by_name(r@),
        r@.to_multiset() == v@.to_multiset(),
{
    let ghost orig = v@;
    let mut rest = v;
        let mut out: Vec<Dependency> = Vec::new();
        proof {
            broadcast use {vstd::seq_lib::group_to_multiset_ensures, vstd::multiset::group_multiset_axioms};

        }
        while rest.len() > 0
            invariant
                out@.to_multiset().add(rest@.to_multiset()) == orig.to_multiset(),
                sorted_by_name(out@),
                forall|i: int, j: int|
                    0 <= i < out@.len() && 0 <= j < rest@.len() ==> lex_le(
                        #[trigger] out@[i].name@,
                        #[trigger] rest@[j].name@,
                    ),
            decreases rest@.len(),
        {
            let ghost out_pre = out@;
            let ghost rest_pre = rest@;
            let m = min_name_index(&rest);
            let x = rest.remove(m);
            let ghost xg = x;
            out.push(x);
            proof {
                broadcast use {vstd::seq_lib::group_to_multiset_ensures, vstd::multiset::group_multiset_axioms};

                assert(out@ == out_pre.push(xg));
                assert(rest@ == rest_pre.remove(m as int));
                assert(out@.to_multiset() == out_pre.to_multiset().insert(xg));
                assert(rest@.to_multiset() == rest_pre.to_multiset().remove(xg));
                assert(rest_pre.contains(xg));
                assert(rest_pre.to_multiset().count(xg) > 0);
                assert(out@.to_multiset().add(rest@.to_multiset()) =~= orig.to_multiset());
                assert forall|i: int, j: int|
                    0 <= i < out@.len() && 0 <= j < rest@.len() implies lex_le(
                    #[trigger] out@[i].name@,
                    #[trigger] rest@[j].name@,
                ) by {
                    let rj = if j < m { rest_pre[j] } else { rest_pre[j + 1] };
                    assert(rest@[j] == rj);
                    if i < out_pre.len() {
                        assert(lex_le(out@[i].name@, rj.name@));
                    } else {
                        assert(out@[i] == xg);
                        assert(lex_le(rest_pre[m as int].name@, rj.name@));
                    }
                }
                assert forall|i: int, j: int|
                    0 <= i < j < out@.len() implies lex_le(
                    #[trigger] out@[i].name@,
                    #[trigger] out@[j].name@,
                ) by {
                    if j < out@.len() - 1 {
                        assert(lex_le(out_pre[i].name@, out_pre[j].name@));
                    } else {
                        assert(out@[j] == xg);
                        assert(lex_le(out_pre[i].name@, rest_pre[m as int].name@));
                    }
                }
            }
        }
        proof {
            broadcast use {vstd::seq_lib::group_to_multiset_ensures, vstd::multiset::group_multiset_axioms};

            assert(rest@.to_multiset() =~= Multiset::empty());
            assert(out@.to_multiset().add(Multiset::empty()) =~= out@.to_multiset());
        }
        out
}

/// The version that `spec_version_of` denotes, as a free function on sequences.
pub open spec fn spec_version_at(s: Seq<Dependency>, n: Seq<char>) -> Seq<char> {
    let i = choose|i: int| 0 <= i < s.len() && #[trigger] s[i].name@ == n;
    s[i].version@
}

/// Under unique names, the version stored at any index carrying `n` is
/// the version `spec_version_at` denotes.
pub proof fn lemma_version_unique(s: Seq<Dependency>, i: int, n: Seq<char>)
    requires
        names_unique(s),
        0 <= i < s.len(),
        s[i].name@ == n,
    ensures
        spec_version_at(s, n) == s[i].version@,
{
    let j = choose|j: int| 0 <= j < s.len() && #[trigger] s[j].name@ == n;
    if j != i {
        if j < i {
            assert(s[j].name@ != s[i].name@);
        } else {
            assert(s[i].name@ != s[j].name@);
        }
    }
}

pub proof fn lemma_version_at(s: Seq<Dependency>, i: int)
    requires
        names_unique(s),
        0 <= i < s.len(),
    ensures
        spec_version_at(s, s[i].name@) == s[i].version@,
        seq_contains_name(s, s[i].name@),
{
    assert(seq_contains_name(s, s[i].name@));
    lemma_version_unique(s, i, s[i].name@);
}

/// Containment of a name `m` is unchanged between two sequences that
/// agree on every entry, except possibly at positions that carry a
/// name other than `m` on both sides; new trailing entries must not
/// carry `m` either. Both directions share the witness index.
proof fn lemma_pointwise_names(pre: Seq<Dependency>, post: Seq<Dependency>, m: Seq<char>)
    requires
        pre.len() <= post.len(),
        forall|k: int| 0 <= k < pre.len() ==> #[trigger] post[k].name@ == pre[k].name@ || (
        #[trigger] pre[k].name@ != m && post[k].name@ != m),
        forall|k: int| pre.len() <= k < post.len() ==> #[trigger] post[k].name@ != m,
    ensures
        seq_contains_name(post, m) == seq_contains_name(pre, m),
{
    if seq_contains_name(pre, m) {
        let i = choose|i: int| 0 <= i < pre.len() && #[trigger] pre[i].name@ == m;
        assert(post[i].name@ == m);
        assert(seq_contains_name(post, m));
    }
    if seq_contains_name(post, m) {
        let i = choose|i: int| 0 <= i < post.len() && #[trigger] post[i].name@ == m;
        assert(i < pre.len() && pre[i].name@ == m);
        assert(seq_contains_name(pre, m));
    }
}

/// Sequences with equal multisets contain the same names.
proof fn lemma_multiset_names(a: Seq<Dependency>, b: Seq<Dependency>)
    requires
        a.to_multiset() == b.to_multiset(),
    ensures
        forall|m: Seq<char>| #[trigger] seq_contains_name(a, m) == seq_contains_name(b, m),
{
    broadcast use {vstd::seq_lib::group_to_multiset_ensures, vstd::multiset::group_multiset_axioms};

    assert forall|m: Seq<char>| #[trigger] seq_contains_name(a, m) == seq_contains_name(b, m) by {
        if seq_contains_name(a, m) {
            let i = choose|i: int| 0 <= i < a.len() && #[trigger] a[i].name@ == m;
            assert(a.contains(a[i]));
            assert(a.to_multiset().count(a[i]) > 0);
            assert(b.to_multiset().count(a[i]) > 0);
            assert(b.contains(a[i]));
            let j = choose|j: int| 0 <= j < b.len() && b[j] == a[i];
            assert(b[j].name@ == m);
        }
        if seq_contains_name(b, m) {
            let i = choose|i: int| 0 <= i < b.len() && #[trigger] b[i].name@ == m;
            assert(b.contains(b[i]));
            assert(b.to_multiset().count(b[i]) > 0);
            assert(a.to_multiset().count(b[i]) > 0);
            assert(a.contains(b[i]));
            let j = choose|j: int| 0 <= j < a.len() && a[j] == b[i];
            assert(a[j].name@ == m);
        }
    }
}

/// A permutation of a unique-name sequence has unique names itself.
proof fn lemma_sorted_unique_names(orig: Seq<Dependency>, out: Seq<Dependency>)
    requires
        names_unique(orig),
        orig.to_multiset() == out.to_multiset(),
    ensures
        names_unique(out),
{
    broadcast use {vstd::seq_lib::group_to_multiset_ensures, vstd::multiset::group_multiset_axioms};

    assert forall|i: int, j: int|
        0 <= i < j < out.len() implies #[trigger] out[i].name@ != #[trigger] out[j].name@ by {
        if out[i].name@ == out[j].name@ {
            if out[i] == out[j] {
                let x = out[i];
                assert(out.remove(j).to_multiset() == out.to_multiset().remove(x));
                assert(0 <= i < out.remove(j).len() && out.remove(j)[i] == x);
                assert(out.remove(j).contains(x));
                assert(out.remove(j).to_multiset().count(x) > 0);
                assert(out.to_multiset().count(x) >= 2);
                assert(orig.to_multiset().count(x) >= 2);
                lemma_unique_count(orig, x);
            } else {
                lemma_two_names(orig, out[i], out[j]);
            }
        }
    }
}

/// A unique-name sequence holds each value at most once.
proof fn lemma_unique_count(s: Seq<Dependency>, x: Dependency)
    requires
        names_unique(s),
    ensures
        s.to_multiset().count(x) <= 1,
    decreases s.len(),
{
    broadcast use {vstd::seq_lib::group_to_multiset_ensures, vstd::multiset::group_multiset_axioms};

    if s.len() == 0 {
        assert(s.to_multiset() =~= Multiset::empty());
    } else {
        let prefix = s.drop_last();
        assert(s == prefix.push(s.last()));
        assert(s.to_multiset() == prefix.to_multiset().insert(s.last()));
        lemma_unique_count(prefix, x);
        if x == s.last() {
            if prefix.to_multiset().count(x) > 0 {
                assert(prefix.contains(x));
                let i = choose|i: int| 0 <= i < prefix.len() && prefix[i] == x;
                assert(s[i].name@ == s[s.len() - 1].name@);
                assert(false);
            }
        }
    }
}

/// Two distinct values with the same name cannot both occur in a
/// unique-name sequence.
proof fn lemma_two_names(s: Seq<Dependency>, x: Dependency, y: Dependency)
    requires
        names_unique(s),
        x.name@ == y.name@,
        x != y,
        s.to_multiset().count(x) > 0,
    ensures
        s.to_multiset().count(y) == 0,
{
    broadcast use {vstd::seq_lib::group_to_multiset_ensures, vstd::multiset::group_multiset_axioms};

    if s.to_multiset().count(y) > 0 {
        assert(s.contains(x));
        assert(s.contains(y));
        let i = choose|i: int| 0 <= i < s.len() && s[i] == x;
        let j = choose|j: int| 0 <= j < s.len() && s[j] == y;
        assert(i != j);
        if i < j {
            assert(s[i].name@ != s[j].name@);
        } else {
            assert(s[j].name@ != s[i].name@);
        }
        assert(false);
    }
}

/// Index of a name-minimal entry of a nonempty vector.
fn min_name_index(v: &Vec<Dependency>) -> (r: usize)
    requires
        v@.len() > 0,
    ensures
        r < v@.len(),
        forall|j: int| 0 <= j < v@.len() ==> lex_le(v@[r as int].name@, #[trigger] v@[j].name@),
{
    let n = v.len();
    let mut m: usize = 0;
    let mut i: usize = 1;
    proof {
        lemma_lex_le_total(v@[0].name@, v@[0].name@);
    }
    while i < n
        invariant
            n == v@.len(),
            m < i <= n,
            forall|j: int| 0 <= j < i ==> lex_le(v@[m as int].name@, #[trigger] v@[j].name@),
        decreases n - i,
    {
        if !str_lex_le(v[m].name.as_str(), v[i].name.as_str()) {
            proof {
                lemma_lex_le_total(v@[m as int].name@, v@[i as int].name@);
            }
            let ghost old_m = m as int;
            m = i;
            proof {
                assert forall|j: int| 0 <= j < i + 1 implies lex_le(
                    v@[m as int].name@,
                    #[trigger] v@[j].name@,
                ) by {
                    if j < i {
                        lemma_lex_le_trans(v@[m as int].name@, v@[old_m].name@, v@[j].name@);
                    } else {
                        lemma_lex_le_total(v@[m as int].name@, v@[m as int].name@);
                    }
                }
            }
        } else {
            proof {
                assert(lex_le(v@[m as int].name@, v@[i as int].name@));
            }
        }
        i = i + 1;
    }
    m
}

} // verus!
