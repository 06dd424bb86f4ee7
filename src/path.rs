//! Program paths: case-insensitive identifiers of executables.

use vstd::prelude::*;

verus! {

/// The Unicode case folding of a string, as `unicase` computes it.
pub uninterp spec fn case_fold(s: Seq<char>) -> Seq<char>;

/// Relies on `unicase::UniCase::to_folded_case`: each character is mapped to
/// its case-folded form, so the result depends on the characters alone.
#[verifier::external_body]
fn fold_case(s: &str) -> (r: String)
    ensures
        r@ == case_fold(s@),
{
    unicase::UniCase::new(s).to_folded_case()
}

/// Strict lexicographic order on character sequences, by code point.
pub open spec fn seq_lt(a: Seq<char>, b: Seq<char>) -> bool
    decreases a.len(),
{
    if a.len() == 0 {
        b.len() > 0
    } else if b.len() == 0 {
        false
    } else if a[0] != b[0] {
        a[0] < b[0]
    } else {
        seq_lt(a.drop_first(), b.drop_first())
    }
}

/// The order in which two paths stand: by their case-folded forms.
pub open spec fn path_lt(a: Seq<char>, b: Seq<char>) -> bool {
    seq_lt(case_fold(a), case_fold(b))
}

/// Two paths name the same program when their case-folded forms agree.
pub open spec fn same_program(a: Seq<char>, b: Seq<char>) -> bool {
    case_fold(a) == case_fold(b)
}

pub proof fn lemma_seq_lt_irreflexive(a: Seq<char>)
    ensures
        !seq_lt(a, a),
    decreases a.len(),
{
    if a.len() > 0 {
        lemma_seq_lt_irreflexive(a.drop_first());
    }
}

pub proof fn lemma_seq_lt_asymmetric(a: Seq<char>, b: Seq<char>)
    ensures
        seq_lt(a, b) ==> !seq_lt(b, a),
    decreases a.len(),
{
    if a.len() > 0 && b.len() > 0 && a[0] == b[0] {
        lemma_seq_lt_asymmetric(a.drop_first(), b.drop_first());
    }
}

pub proof fn lemma_seq_lt_transitive(a: Seq<char>, b: Seq<char>, c: Seq<char>)
    ensures
        seq_lt(a, b) && seq_lt(b, c) ==> seq_lt(a, c),
    decreases a.len(),
{
    if a.len() > 0 && b.len() > 0 && c.len() > 0 {
        lemma_seq_lt_transitive(a.drop_first(), b.drop_first(), c.drop_first());
    }
}

pub proof fn lemma_seq_lt_total(a: Seq<char>, b: Seq<char>)
    ensures
        a != b ==> seq_lt(a, b) || seq_lt(b, a),
    decreases a.len(),
{
    if a.len() > 0 && b.len() > 0 && a[0] == b[0] {
        lemma_seq_lt_total(a.drop_first(), b.drop_first());
        if a.drop_first() == b.drop_first() {
            assert(a =~= seq![a[0]] + a.drop_first());
            assert(b =~= seq![b[0]] + b.drop_first());
        }
    } else if a.len() > 0 && b.len() > 0 {
    } else if a.len() == 0 && b.len() == 0 {
        assert(a =~= b);
    }
}

/// Past a common prefix of length `i`, the order is decided by what follows.
proof fn lemma_seq_lt_skip(a: Seq<char>, b: Seq<char>, i: int)
    requires
        0 <= i <= a.len(),
        i <= b.len(),
        a.subrange(0, i) == b.subrange(0, i),
    ensures
        seq_lt(a, b) == seq_lt(a.subrange(i, a.len() as int), b.subrange(i, b.len() as int)),
    decreases i,
{
    if i > 0 {
        assert(a[0] == a.subrange(0, i)[0]);
        assert(b[0] == b.subrange(0, i)[0]);
        assert(a.drop_first().subrange(0, i - 1) =~= a.subrange(0, i).drop_first());
        assert(b.drop_first().subrange(0, i - 1) =~= b.subrange(0, i).drop_first());
        lemma_seq_lt_skip(a.drop_first(), b.drop_first(), i - 1);
        assert(a.drop_first().subrange(i - 1, a.len() - 1) =~= a.subrange(i, a.len() as int));
        assert(b.drop_first().subrange(i - 1, b.len() - 1) =~= b.subrange(i, b.len() as int));
    } else {
        assert(a.subrange(0, a.len() as int) =~= a);
        assert(b.subrange(0, b.len() as int) =~= b);
    }
}

/// Compares two strings in the order of `seq_lt`.
fn str_lt(a: &str, b: &str) -> (r: bool)
    ensures
        r == seq_lt(a@, b@),
{
    let la = a.unicode_len();
    let lb = b.unicode_len();
    let mut i: usize = 0;
    while i < la && i < lb
        invariant
            la == a@.len(),
            lb == b@.len(),
            i <= la,
            i <= lb,
            a@.subrange(0, i as int) == b@.subrange(0, i as int),
        decreases la - i,
    {
        let ca = a.get_char(i);
        let cb = b.get_char(i);
        if ca != cb {
            proof {
                lemma_seq_lt_skip(a@, b@, i as int);
                let sa = a@.subrange(i as int, a@.len() as int);
                let sb = b@.subrange(i as int, b@.len() as int);
                assert(sa[0] == ca);
                assert(sb[0] == cb);
            }
            return ca < cb;
        }
        proof {
            assert(a@.subrange(0, i + 1) =~= a@.subrange(0, i as int).push(ca));
            assert(b@.subrange(0, i + 1) =~= b@.subrange(0, i as int).push(cb));
        }
        i = i + 1;
    }
    proof {
        lemma_seq_lt_skip(a@, b@, i as int);
    }
    i == la && i < lb
}

/// The path of an executable, compared and ordered without regard to case.
#[derive(Debug)]
pub struct ProgramPath {
    path: String,
    folded: String,
}

impl View for ProgramPath {
    type V = Seq<char>;

    closed spec fn view(&self) -> Seq<char> {
        self.path@
    }
}

impl ProgramPath {
    #[verifier::type_invariant]
    spec fn folded_matches(&self) -> bool {
        self.folded@ == case_fold(self.path@)
    }

    pub fn new(path: String) -> (r: ProgramPath)
        ensures
            r@ == path@,
    {
        let folded = fold_case(path.as_str());
        ProgramPath { path, folded }
    }

    pub fn from_str(path: &str) -> (r: ProgramPath)
        ensures
            r@ == path@,
    {
        ProgramPath::new(String::from_str(path))
    }

    pub fn as_str(&self) -> (r: &str)
        ensures
            r@ == self@,
    {
        self.path.as_str()
    }

    /// A copy of this path.
    pub fn duplicate(&self) -> (r: ProgramPath)
        ensures
            r@ == self@,
    {
        proof {
            use_type_invariant(self);
        }
        ProgramPath { path: self.path.clone(), folded: self.folded.clone() }
    }

    /// Whether both paths name the same program.
    pub fn same_program(&self, other: &ProgramPath) -> (r: bool)
        ensures
            r == same_program(self@, other@),
    {
        proof {
            use_type_invariant(self);
            use_type_invariant(other);
        }
        self.folded == other.folded
    }

    /// Whether this path stands before `other` in the case-insensitive order.
    pub fn precedes(&self, other: &ProgramPath) -> (r: bool)
        ensures
            r == path_lt(self@, other@),
    {
        proof {
            use_type_invariant(self);
            use_type_invariant(other);
        }
        str_lt(self.folded.as_str(), other.folded.as_str())
    }
}

} // verus!
