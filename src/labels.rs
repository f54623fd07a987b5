//! Splitting a domain into its labels, top-level label first, and joining
//! such a label path back into a domain.
use vstd::prelude::*;
use vstd::string::StrSliceExecFns;

verus! {

/// A label path: the labels of a domain, top-level label first.
pub type Path = Seq<Seq<char>>;

/// The labels of `s`, split on every `.`, in reverse order:
/// `"www.example.com"` gives `["com", "example", "www"]`. A leading `.`
/// gives an empty label at the end of the path.
pub open spec fn rev_labels(s: Seq<char>) -> Path
    decreases s.len(),
{
    if s.len() == 0 {
        seq![Seq::<char>::empty()]
    } else {
        let rest = rev_labels(s.drop_first());
        if s[0] == '.' {
            rest.push(Seq::<char>::empty())
        } else {
            rest.update(rest.len() - 1, seq![s[0]] + rest.last())
        }
    }
}

/// The domain that a label path denotes: its labels in reverse order,
/// joined by `.`.
pub open spec fn domain_of(p: Path) -> Seq<char>
    decreases p.len(),
{
    if p.len() == 0 {
        Seq::<char>::empty()
    } else if p.len() == 1 {
        p[0]
    } else {
        p.last() + seq!['.'] + domain_of(p.drop_last())
    }
}

/// Every string has at least one label.
pub proof fn lemma_rev_labels_nonempty(s: Seq<char>)
    ensures
        rev_labels(s).len() >= 1,
    decreases s.len(),
{
    if s.len() > 0 {
        lemma_rev_labels_nonempty(s.drop_first());
    }
}

/// Joining the labels of a string gives back the string.
pub proof fn lemma_domain_of_rev_labels(s: Seq<char>)
    ensures
        domain_of(rev_labels(s)) == s,
    decreases s.len(),
{
    if s.len() > 0 {
        let rest = rev_labels(s.drop_first());
        lemma_rev_labels_nonempty(s.drop_first());
        lemma_domain_of_rev_labels(s.drop_first());
        if s[0] == '.' {
            let p = rest.push(Seq::<char>::empty());
            assert(p.drop_last() =~= rest);
            assert(s =~= seq!['.'] + s.drop_first());
            assert(domain_of(p) =~= s);
        } else {
            let p = rest.update(rest.len() - 1, seq![s[0]] + rest.last());
            if rest.len() == 1 {
                assert(domain_of(p) =~= s);
            } else {
                assert(p.drop_last() =~= rest.drop_last());
                assert(domain_of(rest) == rest.last() + seq!['.'] + domain_of(rest.drop_last()));
                assert(p.last() == seq![s[0]] + rest.last());
                assert(domain_of(p) == p.last() + seq!['.'] + domain_of(p.drop_last()));
                assert(s =~= seq![s[0]] + s.drop_first());
                assert(domain_of(p) =~= s);
            }
        }
    }
}

/// Splitting `a.b` gives the labels of `b` followed by those of `a`.
pub proof fn lemma_rev_labels_concat(a: Seq<char>, b: Seq<char>)
    ensures
        rev_labels(a + seq!['.'] + b) == rev_labels(b) + rev_labels(a),
    decreases a.len(),
{
    let s = a + seq!['.'] + b;
    if a.len() == 0 {
        assert(s.drop_first() =~= b);
        assert(rev_labels(a) =~= seq![Seq::<char>::empty()]);
        assert(rev_labels(s) =~= rev_labels(b) + rev_labels(a));
    } else {
        lemma_rev_labels_concat(a.drop_first(), b);
        lemma_rev_labels_nonempty(a.drop_first());
        assert(s.drop_first() =~= a.drop_first() + seq!['.'] + b);
        assert(s[0] == a[0]);
        let rb = rev_labels(b);
        let ra = rev_labels(a.drop_first());
        if a[0] == '.' {
            assert(rev_labels(s) =~= rb + ra.push(Seq::<char>::empty()));
        } else {
            assert((rb + ra).last() == ra.last());
            assert(rev_labels(s) =~= rb + ra.update(ra.len() - 1, seq![a[0]] + ra.last()));
        }
    }
}

/// The characters of `s`, in order.
fn chars_of(s: &str) -> (r: Vec<char>)
    ensures
        r@ == s@,
{
    let mut r: Vec<char> = Vec::new();
    for c in it: s.chars()
        invariant
            it.seq() == s@,
            r@ == it.seq().take(it.index() as int),
    {
        r.push(c);
    }
    assert(r@ =~= s@);
    r
}

/// Splits `domain` on every `.` and returns its labels, top-level label
/// first.
pub fn domain_to_rseg(domain: &str) -> (r: Vec<String>)
    ensures
        r@.map_values(|l: String| l@) == rev_labels(domain@),
{
    let chars = chars_of(domain);
    let n = chars.len();
    let mut done: Vec<String> = Vec::new();
    let mut end: usize = n;
    let mut i: usize = n;
    assert(domain@.subrange(n as int, n as int) =~= Seq::<char>::empty());
    assert(done@.map_values(|l: String| l@).push(Seq::<char>::empty()) =~= seq![Seq::<char>::empty()]);
    while i > 0
        invariant
            chars@ == domain@,
            n == domain@.len(),
            i <= end <= n,
            rev_labels(domain@.subrange(i as int, n as int)) == done@.map_values(|l: String| l@).push(
                domain@.subrange(i as int, end as int),
            ),
        decreases i,
    {
        let c = chars[i - 1];
        let ghost tail = domain@.subrange(i as int, n as int);
        let ghost longer = domain@.subrange(i - 1, n as int);
        assert(longer.drop_first() =~= tail);
        assert(longer[0] == c);
        if c == '.' {
            let label = domain.substring_char(i, end).to_owned();
            done.push(label);
            end = i - 1;
            assert(domain@.subrange(i - 1, end as int) =~= Seq::<char>::empty());
        } else {
            assert(domain@.subrange(i - 1, end as int) =~= seq![c] + domain@.subrange(i as int, end as int));
        }
        i = i - 1;
        assert(rev_labels(longer) =~= done@.map_values(|l: String| l@).push(
            domain@.subrange(i as int, end as int),
        ));
    }
    let label = domain.substring_char(0, end).to_owned();
    done.push(label);
    assert(domain@.subrange(0, n as int) =~= domain@);
    assert(done@.map_values(|l: String| l@) =~= rev_labels(domain@));
    done
}

} // verus!
