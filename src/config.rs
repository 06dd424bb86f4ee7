//! The policy: whether muting is on, which programs are managed, and how many
//! recent apps the tray lists; with its text encoding.

use vstd::prelude::*;
use crate::path::{
    ProgramPath, case_fold, path_lt, same_program, lemma_seq_lt_irreflexive,
    lemma_seq_lt_asymmetric, lemma_seq_lt_transitive, lemma_seq_lt_total,
};

verus! {

/// Paths in strictly increasing case-insensitive order: no program twice.
pub open spec fn strictly_sorted(s: Seq<Seq<char>>) -> bool {
    forall|i: int, j: int| 0 <= i < j < s.len() ==> path_lt(#[trigger] s[i], #[trigger] s[j])
}

/// Whether `s` holds a path naming the same program as `p`.
pub open spec fn has_program(s: Seq<Seq<char>>, p: Seq<char>) -> bool {
    exists|i: int| 0 <= i < s.len() && same_program(#[trigger] s[i], p)
}

/// The paths of `paths` that no earlier path names the same program as:
/// what collecting them into a case-insensitive set keeps.
pub open spec fn first_of_each(paths: Seq<Seq<char>>) -> Set<Seq<char>> {
    Set::new(
        |p: Seq<char>|
            exists|i: int|
                0 <= i < paths.len() && #[trigger] paths[i] == p && forall|j: int|
                    0 <= j < i ==> !same_program(#[trigger] paths[j], p),
    )
}

pub proof fn lemma_path_lt_irreflexive(a: Seq<char>)
    ensures
        !path_lt(a, a),
{
    lemma_seq_lt_irreflexive(case_fold(a));
}

pub proof fn lemma_path_lt_asymmetric(a: Seq<char>, b: Seq<char>)
    ensures
        path_lt(a, b) ==> !path_lt(b, a),
{
    lemma_seq_lt_asymmetric(case_fold(a), case_fold(b));
}

pub proof fn lemma_path_lt_transitive(a: Seq<char>, b: Seq<char>, c: Seq<char>)
    ensures
        path_lt(a, b) && path_lt(b, c) ==> path_lt(a, c),
{
    lemma_seq_lt_transitive(case_fold(a), case_fold(b), case_fold(c));
}

/// Paths in order either name the same program or stand one before the other.
pub proof fn lemma_path_lt_total(a: Seq<char>, b: Seq<char>)
    ensures
        !same_program(a, b) ==> path_lt(a, b) || path_lt(b, a),
{
    lemma_seq_lt_total(case_fold(a), case_fold(b));
}

/// A path ordered strictly before or after another names a different program.
pub proof fn lemma_path_lt_distinct(a: Seq<char>, b: Seq<char>)
    ensures
        path_lt(a, b) ==> !same_program(a, b),
{
    lemma_seq_lt_irreflexive(case_fold(a));
}

/// Two strictly sorted sequences with the same elements are equal.
pub proof fn lemma_sorted_unique(a: Seq<Seq<char>>, b: Seq<Seq<char>>)
    requires
        strictly_sorted(a),
        strictly_sorted(b),
        a.to_set() == b.to_set(),
    ensures
        a == b,
    decreases a.len(),
{
    if a.len() == 0 {
        if b.len() > 0 {
            assert(b.to_set().contains(b[0]));
        }
        assert(a =~= b);
    } else {
        assert(a.to_set().contains(a[0]));
        assert(b.len() > 0);
        assert(b.to_set().contains(b[0]));
        let j = choose|j: int| 0 <= j < b.len() && b[j] == a[0];
        let i = choose|i: int| 0 <= i < a.len() && a[i] == b[0];
        if j > 0 {
            assert(path_lt(b[0], b[j]));
            if i > 0 {
                assert(path_lt(a[0], a[i]));
                lemma_path_lt_asymmetric(a[0], a[i]);
            } else {
                lemma_path_lt_irreflexive(a[0]);
            }
        }
        assert(a[0] == b[0]);
        let a1 = a.drop_first();
        let b1 = b.drop_first();
        assert forall|x: Seq<char>| a1.to_set().contains(x) implies b1.to_set().contains(x) by {
            let k = choose|k: int| 0 <= k < a1.len() && a1[k] == x;
            assert(path_lt(a[0], a[k + 1]));
            lemma_path_lt_irreflexive(a[0]);
            assert(a.to_set().contains(x));
            let m = choose|m: int| 0 <= m < b.len() && b[m] == x;
            assert(m != 0);
            assert(b1[m - 1] == x);
        }
        assert forall|x: Seq<char>| b1.to_set().contains(x) implies a1.to_set().contains(x) by {
            let k = choose|k: int| 0 <= k < b1.len() && b1[k] == x;
            assert(path_lt(b[0], b[k + 1]));
            lemma_path_lt_irreflexive(b[0]);
            assert(b.to_set().contains(x));
            let m = choose|m: int| 0 <= m < a.len() && a[m] == x;
            assert(m != 0);
            assert(a1[m - 1] == x);
        }
        assert(a1.to_set() =~= b1.to_set());
        lemma_sorted_unique(a1, b1);
        assert(a =~= seq![a[0]] + a1);
        assert(b =~= seq![b[0]] + b1);
    }
}

/// The programs under automatic muting, unique by case-insensitive path and
/// kept in case-insensitive order.
pub struct ManagedApps {
    apps: Vec<ProgramPath>,
}

impl View for ManagedApps {
    type V = Seq<Seq<char>>;

    closed spec fn view(&self) -> Seq<Seq<char>> {
        self.apps@.map_values(|p: ProgramPath| p@)
    }
}

impl ManagedApps {
    #[verifier::type_invariant]
    spec fn sorted(&self) -> bool {
        strictly_sorted(self.apps@.map_values(|p: ProgramPath| p@))
    }

    pub fn new() -> (r: ManagedApps)
        ensures
            r@ == Seq::<Seq<char>>::empty(),
    {
        let r = ManagedApps { apps: Vec::new() };
        assert(r@ =~= Seq::<Seq<char>>::empty());
        r
    }

    /// Every value keeps its paths in strictly increasing case-insensitive
    /// order, so no program is there twice.
    pub fn show_sorted(&self)
        ensures
            strictly_sorted(self@),
    {
        proof {
            use_type_invariant(self);
        }
    }

    pub fn len(&self) -> (r: usize)
        ensures
            r == self@.len(),
    {
        self.apps.len()
    }

    pub fn get(&self, i: usize) -> (r: &ProgramPath)
        requires
            i < self@.len(),
        ensures
            r@ == self@[i as int],
    {
        &self.apps[i]
    }

    /// Whether a path naming the same program as `p` is managed.
    pub fn contains(&self, p: &ProgramPath) -> (r: bool)
        ensures
            r == has_program(self@, p@),
    {
        let mut i: usize = 0;
        while i < self.apps.len()
            invariant
                i <= self.apps@.len(),
                self@.len() == self.apps@.len(),
                forall|k: int| 0 <= k < i ==> !same_program(#[trigger] self@[k], p@),
            decreases self.apps.len() - i,
        {
            if self.apps[i].same_program(p) {
                assert(same_program(self@[i as int], p@));
                return true;
            }
            i = i + 1;
        }
        false
    }

    /// The index of the first path not ordered before `p`.
    fn lower_bound(&self, p: &ProgramPath) -> (r: usize)
        ensures
            r <= self@.len(),
            forall|k: int| 0 <= k < r ==> path_lt(#[trigger] self@[k], p@),
            r < self@.len() ==> !path_lt(self@[r as int], p@),
    {
        let mut i: usize = 0;
        while i < self.apps.len()
            invariant
                i <= self.apps@.len(),
                self@.len() == self.apps@.len(),
                forall|k: int| 0 <= k < i ==> path_lt(#[trigger] self@[k], p@),
            decreases self.apps.len() - i,
        {
            if !self.apps[i].precedes(p) {
                return i;
            }
            i = i + 1;
        }
        i
    }

    pub fn duplicate(&self) -> (r: ManagedApps)
        ensures
            r@ == self@,
    {
        proof {
            use_type_invariant(self);
        }
        let mut v: Vec<ProgramPath> = Vec::new();
        self.copy_into(0, self.apps.len(), &mut v);
        assert(v@.map_values(|p: ProgramPath| p@) =~= self@);
        ManagedApps { apps: v }
    }

    /// Appends copies of the paths at `from..to` to `out`.
    fn copy_into(&self, from: usize, to: usize, out: &mut Vec<ProgramPath>)
        requires
            from <= to <= self@.len(),
        ensures
            final(out)@.map_values(|p: ProgramPath| p@) == old(out)@.map_values(|p: ProgramPath| p@)
                + self@.subrange(from as int, to as int),
    {
        let ghost start = old(out)@.map_values(|p: ProgramPath| p@);
        let mut k: usize = from;
        while k < to
            invariant
                from <= k <= to,
                to <= self@.len(),
                self@.len() == self.apps@.len(),
                out@.map_values(|p: ProgramPath| p@) == start + self@.subrange(from as int, k as int),
            decreases to - k,
        {
            let c = self.apps[k].duplicate();
            let ghost before = out@;
            assert(c@ == self@[k as int]);
            out.push(c);
            assert(out@ =~= before.push(c));
            assert(out@.map_values(|p: ProgramPath| p@) =~= before.map_values(|p: ProgramPath| p@).push(c@));
            assert(out@.map_values(|p: ProgramPath| p@) =~= start + self@.subrange(from as int, k + 1));
            k = k + 1;
        }
    }

    /// Adds `p` unless a path naming the same program is there already;
    /// returns whether it was added.
    pub fn insert(&mut self, p: ProgramPath) -> (r: bool)
        ensures
            r == !has_program(old(self)@, p@),
            r ==> final(self)@.to_set() == old(self)@.to_set().insert(p@),
            r ==> final(self)@.len() == old(self)@.len() + 1,
            !r ==> final(self)@ == old(self)@,
            strictly_sorted(final(self)@),
            forall|q: Seq<char>|
                has_program(final(self)@, q) == (has_program(old(self)@, q) || same_program(q, p@)),
    {
        proof {
            use_type_invariant(&*self);
        }
        let idx = self.lower_bound(&p);
        let ghost s = self@;
        if idx < self.apps.len() && self.apps[idx].same_program(&p) {
            assert(same_program(s[idx as int], p@));
            proof {
                assert forall|q: Seq<char>| has_program(s, q) == (has_program(s, q) || same_program(q, p@)) by {
                    if same_program(q, p@) {
                        assert(same_program(s[idx as int], q));
                    }
                }
            }
            return false;
        }
        proof {
            assert forall|k: int| 0 <= k < s.len() implies !same_program(#[trigger] s[k], p@) by {
                if k < idx {
                    lemma_path_lt_distinct(s[k], p@);
                } else {
                    lemma_path_lt_total(s[idx as int], p@);
                    if k > idx {
                        lemma_path_lt_transitive(p@, s[idx as int], s[k]);
                    }
                    lemma_path_lt_distinct(p@, s[k]);
                    lemma_path_lt_asymmetric(p@, s[k]);
                }
            }
            lemma_path_lt_total(s[idx as int], p@);
        }
        let ghost pv = p@;
        let mut v: Vec<ProgramPath> = Vec::new();
        self.copy_into(0, idx, &mut v);
        v.push(p);
        let n = self.apps.len();
        self.copy_into(idx, n, &mut v);
        proof {
            let t = v@.map_values(|p: ProgramPath| p@);
            assert(t =~= s.insert(idx as int, pv));
            assert forall|i: int, j: int| 0 <= i < j < t.len() implies path_lt(#[trigger] t[i], #[trigger] t[j]) by {
                if j < idx {
                } else if j == idx {
                } else if i < idx {
                    lemma_path_lt_transitive(t[i], pv, t[j]);
                    if j > idx + 1 {
                        lemma_path_lt_transitive(pv, s[idx as int], t[j]);
                    }
                } else if i == idx {
                    if j > idx + 1 {
                        lemma_path_lt_transitive(pv, s[idx as int], t[j]);
                    }
                } else {
                    assert(t[i] == s[i - 1] && t[j] == s[j - 1]);
                }
            }
            assert forall|x: Seq<char>| t.to_set().contains(x) == s.to_set().insert(pv).contains(x) by {
                if t.to_set().contains(x) {
                    let k = choose|k: int| 0 <= k < t.len() && t[k] == x;
                    if k < idx {
                        assert(s[k] == x);
                    } else if k > idx {
                        assert(s[k - 1] == x);
                    }
                }
                if s.to_set().contains(x) {
                    let k = choose|k: int| 0 <= k < s.len() && s[k] == x;
                    if k < idx {
                        assert(t[k] == x);
                    } else {
                        assert(t[k + 1] == x);
                    }
                }
                if x == pv {
                    assert(t[idx as int] == x);
                }
            }
            assert(t.to_set() =~= s.to_set().insert(pv));
            assert forall|q: Seq<char>| has_program(t, q) == (has_program(s, q) || same_program(q, pv)) by {
                if has_program(t, q) {
                    let k = choose|k: int| 0 <= k < t.len() && same_program(t[k], q);
                    if k < idx {
                        assert(same_program(s[k], q));
                    } else if k > idx {
                        assert(same_program(s[k - 1], q));
                    }
                }
                if has_program(s, q) {
                    let k = choose|k: int| 0 <= k < s.len() && same_program(s[k], q);
                    if k < idx {
                        assert(same_program(t[k], q));
                    } else {
                        assert(same_program(t[k + 1], q));
                    }
                }
                if same_program(q, pv) {
                    assert(same_program(t[idx as int], q));
                }
            }
        }
        *self = ManagedApps { apps: v };
        true
    }

    /// Removes the path naming the same program as `p`, if there is one;
    /// returns whether one was removed.
    pub fn remove(&mut self, p: &ProgramPath) -> (r: bool)
        ensures
            r == has_program(old(self)@, p@),
            r ==> exists|i: int|
                0 <= i < old(self)@.len() && same_program(old(self)@[i], p@) && final(self)@
                    == old(self)@.remove(i),
            !r ==> final(self)@ == old(self)@,
            strictly_sorted(final(self)@),
            forall|q: Seq<char>|
                has_program(final(self)@, q) == (has_program(old(self)@, q) && !same_program(q, p@)),
    {
        proof {
            use_type_invariant(&*self);
        }
        let ghost s = self@;
        let mut i: usize = 0;
        while i < self.apps.len()
            invariant
                i <= self.apps@.len(),
                self@ == s,
                s == old(self)@,
                self@.len() == self.apps@.len(),
                strictly_sorted(s),
                forall|k: int| 0 <= k < i ==> !same_program(#[trigger] s[k], p@),
            decreases self.apps.len() - i,
        {
            if self.apps[i].same_program(p) {
                let ghost idx = i as int;
                assert(same_program(s[idx], p@));
                let mut v: Vec<ProgramPath> = Vec::new();
                self.copy_into(0, i, &mut v);
                let n = self.apps.len();
                self.copy_into(i + 1, n, &mut v);
                proof {
                    let t = v@.map_values(|p: ProgramPath| p@);
                    assert(t =~= s.remove(idx));
                    assert forall|a: int, b: int| 0 <= a < b < t.len() implies path_lt(#[trigger] t[a], #[trigger] t[b]) by {
                        if a < idx && b >= idx {
                            assert(t[b] == s[b + 1]);
                        } else if a >= idx {
                            assert(t[a] == s[a + 1] && t[b] == s[b + 1]);
                        }
                    }
                    assert forall|q: Seq<char>| has_program(t, q) == (has_program(s, q) && !same_program(q, p@)) by {
                        if has_program(t, q) {
                            let k = choose|k: int| 0 <= k < t.len() && same_program(t[k], q);
                            if k < idx {
                                assert(same_program(s[k], q));
                                lemma_path_lt_distinct(s[k], s[idx]);
                            } else {
                                assert(same_program(s[k + 1], q));
                                lemma_path_lt_distinct(s[idx], s[k + 1]);
                            }
                        }
                        if has_program(s, q) && !same_program(q, p@) {
                            let k = choose|k: int| 0 <= k < s.len() && same_program(s[k], q);
                            if k < idx {
                                assert(same_program(t[k], q));
                            } else {
                                assert(k != idx);
                                assert(same_program(t[k - 1], q));
                            }
                        }
                    }
                }
                *self = ManagedApps { apps: v };
                assert(self@ == s.remove(idx));
                return true;
            }
            i = i + 1;
        }
        proof {
            assert forall|q: Seq<char>| has_program(s, q) == (has_program(s, q) && !same_program(q, p@)) by {
                if has_program(s, q) && same_program(q, p@) {
                    let k = choose|k: int| 0 <= k < s.len() && same_program(s[k], q);
                    assert(same_program(s[k], p@));
                }
            }
        }
        false
    }
}


/// The first-of-each set of a prefix grows by the next path exactly when no
/// earlier path names the same program.
proof fn lemma_first_of_each_step(paths: Seq<Seq<char>>, i: int)
    requires
        0 <= i < paths.len(),
    ensures
        (exists|j: int| 0 <= j < i && same_program(#[trigger] paths[j], paths[i])) ==> first_of_each(
            paths.subrange(0, i + 1),
        ) == first_of_each(paths.subrange(0, i)),
        !(exists|j: int| 0 <= j < i && same_program(#[trigger] paths[j], paths[i])) ==> first_of_each(
            paths.subrange(0, i + 1),
        ) == first_of_each(paths.subrange(0, i)).insert(paths[i]),
{
    let a = paths.subrange(0, i);
    let b = paths.subrange(0, i + 1);
    assert forall|x: Seq<char>| first_of_each(a).contains(x) implies first_of_each(b).contains(x) by {
        let k = choose|k: int|
            0 <= k < a.len() && #[trigger] a[k] == x && forall|j: int|
                0 <= j < k ==> !same_program(#[trigger] a[j], x);
        assert(b[k] == x);
        assert forall|j: int| 0 <= j < k implies !same_program(#[trigger] b[j], x) by {
            assert(b[j] == a[j]);
        }
    }
    if exists|j: int| 0 <= j < i && same_program(#[trigger] paths[j], paths[i]) {
        let w = choose|j: int| 0 <= j < i && same_program(#[trigger] paths[j], paths[i]);
        assert forall|x: Seq<char>| first_of_each(b).contains(x) implies first_of_each(a).contains(x) by {
            let k = choose|k: int|
                0 <= k < b.len() && #[trigger] b[k] == x && forall|j: int|
                    0 <= j < k ==> !same_program(#[trigger] b[j], x);
            if k == i {
                assert(b[w] == paths[w]);
                assert(!same_program(b[w], x));
            }
            assert(a[k] == x);
            assert forall|j: int| 0 <= j < k implies !same_program(#[trigger] a[j], x) by {
                assert(b[j] == a[j]);
            }
        }
        assert(first_of_each(b) =~= first_of_each(a));
    } else {
        assert forall|x: Seq<char>|
            first_of_each(b).contains(x) implies first_of_each(a).insert(paths[i]).contains(x) by {
            let k = choose|k: int|
                0 <= k < b.len() && #[trigger] b[k] == x && forall|j: int|
                    0 <= j < k ==> !same_program(#[trigger] b[j], x);
            if k < i {
                assert(a[k] == x);
                assert forall|j: int| 0 <= j < k implies !same_program(#[trigger] a[j], x) by {
                    assert(b[j] == a[j]);
                }
            }
        }
        assert(b[i] == paths[i]);
        assert forall|j: int| 0 <= j < i implies !same_program(#[trigger] b[j], paths[i]) by {
            assert(b[j] == paths[j]);
        }
        assert(first_of_each(b).contains(paths[i]));
        assert(first_of_each(b) =~= first_of_each(a).insert(paths[i]));
    }
}

/// The abstract content of a configuration.
pub struct ConfigView {
    pub enabled: bool,
    pub managed_apps: Seq<Seq<char>>,
    pub max_recent_apps: usize,
}

/// The policy document: whether muting is on, the managed programs, and the
/// length of the tray's recent-apps list.
pub struct AnnieConfig {
    pub enabled: bool,
    pub managed_apps: ManagedApps,
    pub max_recent_apps: usize,
}

impl View for AnnieConfig {
    type V = ConfigView;

    open spec fn view(&self) -> ConfigView {
        ConfigView {
            enabled: self.enabled,
            managed_apps: self.managed_apps@,
            max_recent_apps: self.max_recent_apps,
        }
    }
}

/// What a configuration read from `enabled`, `paths` and `max_recent_apps`
/// holds: the flags as given, and the paths as a case-insensitive set in
/// which the first of several paths naming one program wins.
pub open spec fn loaded_from(
    d: ConfigView,
    enabled: bool,
    paths: Seq<Seq<char>>,
    max_recent_apps: usize,
) -> bool {
    &&& d.enabled == enabled
    &&& d.max_recent_apps == max_recent_apps
    &&& strictly_sorted(d.managed_apps)
    &&& d.managed_apps.to_set() == first_of_each(paths)
}

impl AnnieConfig {
    /// The configuration written on first run: muting on, nothing managed,
    /// ten recent apps.
    pub fn new_empty() -> (r: AnnieConfig)
        ensures
            r@ == (ConfigView {
                enabled: true,
                managed_apps: Seq::<Seq<char>>::empty(),
                max_recent_apps: 10,
            }),
    {
        AnnieConfig { enabled: true, managed_apps: ManagedApps::new(), max_recent_apps: 10 }
    }

    /// The configuration whose fields were read as `enabled`, `managed_apps`
    /// and `max_recent_apps`.
    pub fn from_parts(enabled: bool, managed_apps: Vec<String>, max_recent_apps: usize) -> (r:
        AnnieConfig)
        ensures
            loaded_from(
                r@,
                enabled,
                managed_apps@.map_values(|s: String| s@),
                max_recent_apps,
            ),
    {
        let ghost paths = managed_apps@.map_values(|s: String| s@);
        let mut apps = ManagedApps::new();
        let mut i: usize = 0;
        assert(apps@.to_set() =~= first_of_each(paths.subrange(0, 0)));
        while i < managed_apps.len()
            invariant
                i <= managed_apps@.len(),
                paths == managed_apps@.map_values(|s: String| s@),
                apps@.to_set() == first_of_each(paths.subrange(0, i as int)),
                strictly_sorted(apps@),
                forall|q: Seq<char>|
                    has_program(apps@, q) == exists|j: int|
                        0 <= j < i && same_program(#[trigger] paths[j], q),
            decreases managed_apps.len() - i,
        {
            let p = ProgramPath::from_str(managed_apps[i].as_str());
            assert(p@ == paths[i as int]);
            let ghost before = apps@;
            proof {
                lemma_first_of_each_step(paths, i as int);
            }
            let added = apps.insert(p);
            proof {
                assert forall|q: Seq<char>|
                    has_program(apps@, q) == exists|j: int|
                        0 <= j < i + 1 && same_program(#[trigger] paths[j], q) by {
                    if same_program(q, paths[i as int]) {
                        assert(same_program(paths[i as int], q));
                    }
                    if exists|j: int| 0 <= j < i + 1 && same_program(#[trigger] paths[j], q) {
                        let j = choose|j: int| 0 <= j < i + 1 && same_program(#[trigger] paths[j], q);
                        if j < i {
                        } else {
                            assert(same_program(q, paths[i as int]));
                        }
                    }
                }
                if !added {
                    let j = choose|j: int| 0 <= j < i && same_program(#[trigger] paths[j], paths[i as int]);
                    assert(exists|j: int| 0 <= j < i && same_program(#[trigger] paths[j], paths[i as int]));
                } else {
                    assert(!(exists|j: int| 0 <= j < i && same_program(#[trigger] paths[j], paths[i as int])));
                }
            }
            i = i + 1;
        }
        assert(paths.subrange(0, i as int) =~= paths);
        AnnieConfig { enabled, managed_apps: apps, max_recent_apps }
    }

    /// Whether `program_path` names a managed program.
    pub fn is_managed(&self, program_path: &ProgramPath) -> (r: bool)
        ensures
            r == has_program(self.managed_apps@, program_path@),
    {
        self.managed_apps.contains(program_path)
    }

    pub fn duplicate(&self) -> (r: AnnieConfig)
        ensures
            r@ == self@,
    {
        AnnieConfig {
            enabled: self.enabled,
            managed_apps: self.managed_apps.duplicate(),
            max_recent_apps: self.max_recent_apps,
        }
    }
}

pub const HEADER: &'static str = "Annie config file\n\nManaged apps can be added or removed using the \"Recent apps\" context menu action.\nIf manual edits are required, after saving the file, reload the configuration using the \"Reload config from file\" context menu action.\nThis will prevent annie from overwriting this file with the program's internal state.";

pub const DESC_ENABLED: &'static str = "Whether to do any muting/unmuting. Setting this to false is equivalent to the annie process not running.";

pub const DESC_MANAGED_APPS: &'static str = "Programs managed by annie. Only programs specified here are automatically muted/unmuted by annie.";

pub const DESC_MAX_RECENT_APPS: &'static str = "Maximum number of items to be shown in the \"Recent apps\" menu.";

/// The TOML literal that `toml` writes for a string.
pub uninterp spec fn toml_string_repr(s: Seq<char>) -> Seq<char>;

/// Relies on `toml::ser::ValueSerializer` on a `&str`: it writes the TOML
/// literal of the string, which depends on its characters alone, and does
/// not fail.
#[verifier::external_body]
fn toml_string(s: &str) -> (r: Result<String, String>)
    ensures
        r is Ok,
        r is Ok ==> r->Ok_0@ == toml_string_repr(s@),
{
    let mut out = String::new();
    match serde::Serialize::serialize(s, toml::ser::ValueSerializer::new(&mut out)) {
        Ok(()) => Ok(out),
        Err(e) => Err(e.to_string()),
    }
}

/// Relies on `toml::ser::ValueSerializer` on a `bool`: it writes `true` or
/// `false` and does not fail.
#[verifier::external_body]
fn toml_bool(b: bool) -> (r: Result<String, String>)
    ensures
        r is Ok,
        r is Ok ==> r->Ok_0@ == bool_text(b),
{
    let mut out = String::new();
    match serde::Serialize::serialize(&b, toml::ser::ValueSerializer::new(&mut out)) {
        Ok(()) => Ok(out),
        Err(e) => Err(e.to_string()),
    }
}

/// Relies on `toml::ser::ValueSerializer` on a `u64`: TOML integers are
/// 64-bit signed, so a value above `i64::MAX` is refused; any other is
/// written in decimal.
#[verifier::external_body]
fn toml_integer(v: u64) -> (r: Result<String, String>)
    ensures
        v <= i64::MAX ==> r is Ok,
        r is Ok ==> r->Ok_0@ == decimal_text(v as nat),
        v > i64::MAX ==> r is Err,
{
    let mut out = String::new();
    match serde::Serialize::serialize(&v, toml::ser::ValueSerializer::new(&mut out)) {
        Ok(()) => Ok(out),
        Err(e) => Err(e.to_string()),
    }
}

pub open spec fn bool_text(b: bool) -> Seq<char> {
    if b {
        seq!['t', 'r', 'u', 'e']
    } else {
        seq!['f', 'a', 'l', 's', 'e']
    }
}

pub open spec fn digit_char(d: nat) -> char {
    seq!['0', '1', '2', '3', '4', '5', '6', '7', '8', '9'][d as int]
}

/// The decimal digits of `n`, without leading zeros.
pub open spec fn decimal_text(n: nat) -> Seq<char>
    decreases n,
{
    if n < 10 {
        seq![digit_char(n)]
    } else {
        decimal_text(n / 10).push(digit_char(n % 10))
    }
}

/// What a comment line adds for character `c` after the text `prev`: lines
/// start with `# `, empty lines stay empty.
pub open spec fn comment_piece(prev: Seq<char>, c: char) -> Seq<char> {
    if c == '\n' {
        seq!['\n']
    } else if prev.len() == 0 || prev.last() == '\n' {
        seq!['#', ' ', c]
    } else {
        seq![c]
    }
}

pub open spec fn comment_body(s: Seq<char>) -> Seq<char>
    decreases s.len(),
{
    if s.len() == 0 {
        Seq::empty()
    } else {
        comment_body(s.drop_last()) + comment_piece(s.drop_last(), s.last())
    }
}

/// `s` as TOML comment lines.
pub open spec fn comment_text(s: Seq<char>) -> Seq<char> {
    comment_body(s).push('\n')
}

/// The lines of the managed-apps array, one path each.
pub open spec fn apps_text(s: Seq<Seq<char>>) -> Seq<char>
    decreases s.len(),
{
    if s.len() == 0 {
        Seq::empty()
    } else {
        apps_text(s.drop_last()) + "    "@ + toml_string_repr(s.last()) + ",\n"@
    }
}

/// The text of a saved configuration.
pub open spec fn config_text(c: ConfigView) -> Seq<char> {
    comment_text(HEADER@) + "\n"@ + comment_text(DESC_ENABLED@) + "enabled = "@ + bool_text(c.enabled)
        + "\n"@ + "\n"@ + comment_text(DESC_MANAGED_APPS@) + "managed_apps = [\n"@ + apps_text(
        c.managed_apps,
    ) + "]\n"@ + "\n"@ + comment_text(DESC_MAX_RECENT_APPS@) + "max_recent_apps = "@ + decimal_text(
        c.max_recent_apps as nat,
    ) + "\n"@
}

/// Appends `text` as comment lines.
fn write_comment(writer: &mut String, text: &str)
    ensures
        final(writer)@ == old(writer)@ + comment_text(text@),
{
    let ghost start = writer@;
    let n = text.unicode_len();
    let mut i: usize = 0;
    proof {
        reveal_strlit("\n");
        reveal_strlit("# ");
        assert(text@.subrange(0, 0) =~= Seq::<char>::empty());
    }
    assert(writer@ =~= start + comment_body(text@.subrange(0, 0)));
    while i < n
        invariant
            n == text@.len(),
            i <= n,
            writer@ == start + comment_body(text@.subrange(0, i as int)),
        decreases n - i,
    {
        let c = text.get_char(i);
        let ghost prev = text@.subrange(0, i as int);
        let ghost next = text@.subrange(0, i + 1);
        assert(next.drop_last() =~= prev);
        assert(next.last() == c);
        proof {
            reveal_strlit("\n");
            reveal_strlit("# ");
        }
        if c == '\n' {
            writer.append("\n");
        } else {
            if i == 0 || text.get_char(i - 1) == '\n' {
                writer.append("# ");
            }
            let piece = text.substring_char(i, i + 1);
            assert(piece@ =~= seq![c]);
            writer.append(piece);
        }
        assert(writer@ =~= start + comment_body(next));
        i = i + 1;
    }
    assert(text@.subrange(0, n as int) =~= text@);
    writer.append("\n");
}

/// The configuration as TOML text with explanatory comments; the managed
/// apps are written in case-insensitive order. Fails where `max_recent_apps`
/// exceeds what a TOML integer holds.
pub fn serialize_toml_config(config: &AnnieConfig) -> (r: Result<String, String>)
    ensures
        config.max_recent_apps <= i64::MAX ==> (r matches Ok(t) && t@ == config_text(config@)),
        config.max_recent_apps > i64::MAX ==> r is Err,
{
    let mut writer = String::new();
    write_comment(&mut writer, HEADER);
    writer.append("\n");
    write_comment(&mut writer, DESC_ENABLED);
    writer.append("enabled = ");
    match toml_bool(config.enabled) {
        Ok(t) => writer.append(t.as_str()),
        Err(e) => return Err(e),
    }
    writer.append("\n");
    writer.append("\n");
    write_comment(&mut writer, DESC_MANAGED_APPS);
    writer.append("managed_apps = [\n");
    let ghost head = writer@;
    let n = config.managed_apps.len();
    let mut k: usize = 0;
    assert(config.managed_apps@.subrange(0, 0) =~= Seq::<Seq<char>>::empty());
    assert(writer@ =~= head + apps_text(config.managed_apps@.subrange(0, 0)));
    while k < n
        invariant
            n == config.managed_apps@.len(),
            k <= n,
            writer@ == head + apps_text(config.managed_apps@.subrange(0, k as int)),
        decreases n - k,
    {
        let ghost prefix = config.managed_apps@.subrange(0, k + 1);
        assert(prefix.drop_last() =~= config.managed_apps@.subrange(0, k as int));
        writer.append("    ");
        match toml_string(config.managed_apps.get(k).as_str()) {
            Ok(t) => writer.append(t.as_str()),
            Err(e) => return Err(e),
        }
        writer.append(",\n");
        assert(writer@ =~= head + apps_text(prefix));
        k = k + 1;
    }
    assert(config.managed_apps@.subrange(0, n as int) =~= config.managed_apps@);
    writer.append("]\n");
    writer.append("\n");
    write_comment(&mut writer, DESC_MAX_RECENT_APPS);
    writer.append("max_recent_apps = ");
    match toml_integer(config.max_recent_apps as u64) {
        Ok(t) => writer.append(t.as_str()),
        Err(e) => return Err(e),
    }
    writer.append("\n");
    Ok(writer)
}

/// Saving a configuration, loading the saved text, and saving again writes
/// the text of the first save: the loaded configuration is the one saved.
/// The reading of the written values back out of the TOML text is `toml`'s
/// part; `loaded_from` states what loading keeps of them, and
/// `ManagedApps::show_sorted` gives the order of a configuration at hand.
pub proof fn lemma_save_load_save(c: ConfigView, d: ConfigView)
    requires
        strictly_sorted(c.managed_apps),
        loaded_from(d, c.enabled, c.managed_apps, c.max_recent_apps),
    ensures
        d == c,
        config_text(d) == config_text(c),
{
    let s = c.managed_apps;
    assert forall|x: Seq<char>| first_of_each(s).contains(x) == s.to_set().contains(x) by {
        if s.to_set().contains(x) {
            let k = choose|k: int| 0 <= k < s.len() && s[k] == x;
            assert forall|j: int| 0 <= j < k implies !same_program(#[trigger] s[j], x) by {
                lemma_path_lt_distinct(s[j], s[k]);
            }
        }
    }
    assert(first_of_each(s) =~= s.to_set());
    lemma_sorted_unique(d.managed_apps, s);
}

} // verus!
