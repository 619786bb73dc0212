use vstd::prelude::*;

verus! {

/// The two-character escape `\n` in an exclusion source, turned into an
/// actual newline byte; scanning is left to right and non-overlapping.
pub open spec fn spec_unescape(s: Seq<u8>) -> Seq<u8>
    decreases s.len(),
{
    if s.len() >= 2 && s[0] == 92 && s[1] == 110 {
        seq![10u8] + spec_unescape(s.skip(2))
    } else if s.len() >= 1 {
        seq![s[0]] + spec_unescape(s.skip(1))
    } else {
        Seq::empty()
    }
}

/// A text matches an exclusion list exactly when some entry equals it,
/// byte for byte.
pub open spec fn spec_matches(ex: Seq<Seq<u8>>, text: Seq<u8>) -> bool {
    exists|i: int| 0 <= i < ex.len() && ex[i] == text
}

/// Matching sees the exclusion list as a set: a text matches exactly when
/// it is a member, so the order of the entries and any duplicates among
/// them make no difference.
pub proof fn lemma_matches_is_membership(ex: Seq<Seq<u8>>, text: Seq<u8>)
    ensures
        spec_matches(ex, text) <==> ex.to_set().contains(text),
{
    broadcast use vstd::set::group_set_axioms;

    if spec_matches(ex, text) {
        let i = choose|i: int| 0 <= i < ex.len() && ex[i] == text;
        assert(ex.contains(text));
    }
    if ex.to_set().contains(text) {
        assert(ex.contains(text));
    }
}

/// Byte-for-byte equality of two byte vectors.
pub fn bytes_eq(a: &Vec<u8>, b: &Vec<u8>) -> (r: bool)
    ensures
        r == (a@ == b@),
{
    if a.len() != b.len() {
        assert(a@ != b@);
        return false;
    }
    let mut i: usize = 0;
    while i < a.len()
        invariant
            i <= a.len(),
            a@.len() == b@.len(),
            forall|k: int| 0 <= k < i ==> a@[k] == b@[k],
        decreases a.len() - i,
    {
        if a[i] != b[i] {
            return false;
        }
        i += 1;
    }
    assert(a@ =~= b@);
    true
}

/// Replaces each two-byte sequence `\n` with a newline byte.
pub fn unescape(s: &Vec<u8>) -> (r: Vec<u8>)
    ensures
        r@ == spec_unescape(s@),
{
    let mut out: Vec<u8> = Vec::new();
    let mut i: usize = 0;
    proof {
        assert(s@.skip(0int) =~= s@);
        assert(out@ + spec_unescape(s@) =~= spec_unescape(s@));
    }
    while i < s.len()
        invariant
            i <= s.len(),
            spec_unescape(s@) == out@ + spec_unescape(s@.skip(i as int)),
        decreases s.len() - i,
    {
        let ghost pre = out@;
        if i + 1 < s.len() && s[i] == 92 && s[i + 1] == 110 {
            out.push(10);
            proof {
                assert(s@.skip(i as int).len() >= 2);
                assert(s@.skip(i as int)[0] == s@[i as int]);
                assert(s@.skip(i as int)[1] == s@[i as int + 1]);
                assert(s@.skip(i as int).skip(2) =~= s@.skip(i as int + 2));
                assert(spec_unescape(s@.skip(i as int))
                    == seq![10u8] + spec_unescape(s@.skip(i as int + 2)));
                assert(pre + (seq![10u8] + spec_unescape(s@.skip(i as int + 2)))
                    =~= out@ + spec_unescape(s@.skip(i as int + 2)));
            }
            i += 2;
        } else {
            out.push(s[i]);
            proof {
                assert(s@.skip(i as int).len() >= 1);
                assert(s@.skip(i as int)[0] == s@[i as int]);
                assert(!(s@.skip(i as int).len() >= 2 && s@.skip(i as int)[0] == 92
                    && s@.skip(i as int)[1] == 110));
                assert(s@.skip(i as int).skip(1) =~= s@.skip(i as int + 1));
                assert(spec_unescape(s@.skip(i as int))
                    == seq![s@[i as int]] + spec_unescape(s@.skip(i as int + 1)));
                assert(pre + (seq![s@[i as int]] + spec_unescape(s@.skip(i as int + 1)))
                    =~= out@ + spec_unescape(s@.skip(i as int + 1)));
            }
            i += 1;
        }
    }
    proof {
        assert(s@.skip(i as int).len() == 0);
        assert(out@ + spec_unescape(s@.skip(i as int)) =~= out@);
    }
    out
}

/// An ordered list of exact-match exclusion texts. A caption is excluded
/// exactly when its text equals one of the entries.
pub struct ExclusionSet {
    pub entries: Vec<Vec<u8>>,
}

impl View for ExclusionSet {
    type V = Seq<Seq<u8>>;

    open spec fn view(&self) -> Seq<Seq<u8>> {
        self.entries@.map_values(|e: Vec<u8>| e@)
    }
}

impl ExclusionSet {
    /// The empty exclusion set: nothing matches it.
    pub fn new() -> (r: Self)
        ensures
            r@ == Seq::<Seq<u8>>::empty(),
    {
        let r = ExclusionSet { entries: Vec::new() };
        proof {
            assert(r@ =~= Seq::<Seq<u8>>::empty());
        }
        r
    }

    /// Builds the set from one literal source string, applying the `\n`
    /// escape.
    pub fn from_literal(s: &Vec<u8>) -> (r: Self)
        ensures
            r@ == seq![spec_unescape(s@)],
    {
        let mut entries: Vec<Vec<u8>> = Vec::new();
        entries.push(unescape(s));
        let r = ExclusionSet { entries };
        proof {
            assert(r@ =~= seq![spec_unescape(s@)]);
        }
        r
    }

    /// Builds the set from the lines of an exclusion file, applying the
    /// `\n` escape to each line.
    pub fn from_lines(lines: &Vec<Vec<u8>>) -> (r: Self)
        ensures
            r@ == lines@.map_values(|l: Vec<u8>| spec_unescape(l@)),
    {
        let mut entries: Vec<Vec<u8>> = Vec::new();
        let mut i: usize = 0;
        while i < lines.len()
            invariant
                i <= lines.len(),
                entries@.len() == i,
                forall|k: int| 0 <= k < i ==> entries@[k]@ == spec_unescape(lines@[k]@),
            decreases lines.len() - i,
        {
            entries.push(unescape(&lines[i]));
            i += 1;
        }
        let r = ExclusionSet { entries };
        proof {
            assert(r@ =~= lines@.map_values(|l: Vec<u8>| spec_unescape(l@)));
        }
        r
    }

    /// Exact string equality against every entry; the first match
    /// short-circuits. No case folding, no trimming.
    pub fn matches(&self, text: &Vec<u8>) -> (r: bool)
        ensures
            r == spec_matches(self@, text@),
    {
        let mut j: usize = 0;
        while j < self.entries.len()
            invariant
                j <= self.entries.len(),
                forall|k: int| 0 <= k < j ==> self@[k] != text@,
            decreases self.entries.len() - j,
        {
            if bytes_eq(&self.entries[j], text) {
                assert(self@[j as int] == text@);
                return true;
            }
            j += 1;
        }
        false
    }
}

} // verus!
