//! Keys for the ports on a region's boundary: the port's label and path as text, made unique
//! with a `#1`, `#2`, … suffix.

use vstd::prelude::*;

use crate::collections::{NameSet, name_set_contents};
use crate::quantum_program::{EntryView, PathEntry, entry_text, path_text, path_view, port_key_text};
use crate::text::{decimal, digit_char, push_decimal, push_str};

verus! {

/// Copies of the entries of `path`.
pub fn copy_path(path: &Vec<PathEntry>) -> (copy: Vec<PathEntry>)
    ensures
        path_view(copy@) == path_view(path@),
{
    let mut copy: Vec<PathEntry> = Vec::new();
    for i in 0..path.len()
        invariant
            copy.len() == i,
            forall|j: int| 0 <= j < i ==> #[trigger] copy@[j]@ == path@[j]@,
    {
        let entry = match &path[i] {
            PathEntry::Key(k) => PathEntry::Key(k.clone()),
            PathEntry::Index(n) => PathEntry::Index(*n),
        };
        copy.push(entry);
    }
    assert(path_view(copy@) =~= path_view(path@));
    copy
}

/// Append one path entry as text.
fn push_entry(s: &mut String, entry: &PathEntry)
    ensures
        final(s)@ == old(s)@ + entry_text(entry@),
{
    match entry {
        PathEntry::Key(k) => push_str(s, k.as_str()),
        PathEntry::Index(n) => push_decimal(s, *n),
    }
}

/// The key of the port at `path` on the node labelled `label`: the label, followed by a dot
/// and the path's entries joined by dots when the path is not empty.
pub fn port_key(label: &str, path: &Vec<PathEntry>) -> (key: String)
    ensures
        key@ == port_key_text(label@, path_view(path@)),
{
    let mut key = String::from_str(label);
    if path.len() == 0 {
        return key;
    }
    push_str(&mut key, ".");
    push_entry(&mut key, &path[0]);
    let mut i: usize = 1;
    while i < path.len()
        invariant
            1 <= i <= path.len(),
            key@ == label@ + "."@ + path_text(path_view(path@).take(i as int)),
        decreases path.len() - i,
    {
        let ghost before = key@;
        push_str(&mut key, ".");
        push_entry(&mut key, &path[i]);
        proof {
            let p = path_view(path@);
            assert(p.take(i + 1).drop_last() =~= p.take(i as int));
            assert(p.take(i + 1).last() == path@[i as int]@);
            assert(before + "."@ + entry_text(path@[i as int]@) =~= label@ + "."@ + (path_text(p.take(i as int)) + "."@ + entry_text(path@[i as int]@)));
        }
        i = i + 1;
    }
    proof {
        let p = path_view(path@);
        assert(p.take(path.len() as int) =~= p);
        if path.len() == 1 {
            assert(path_text(p.take(1)) == entry_text(p[0]));
        }
    }
    key
}

// ---------------------------------------------------------------------------
// Unique keys
// ---------------------------------------------------------------------------

/// The `n`th alternative to `base`: `base#n`.
pub open spec fn numbered(base: Seq<char>, n: nat) -> Seq<char> {
    base + "#"@ + decimal(n)
}

/// Whether `n` is the least number from 1 on whose alternative to `base` is not in `seen`.
pub open spec fn first_free(seen: Set<Seq<char>>, base: Seq<char>, n: nat) -> bool {
    &&& n >= 1
    &&& !seen.contains(numbered(base, n))
    &&& forall|m: nat| 1 <= m < n ==> seen.contains(#[trigger] numbered(base, m))
}

/// `base` if `seen` does not hold it, else the first of `base#1`, `base#2`, … that `seen` does
/// not hold.
pub open spec fn fresh_key(seen: Set<Seq<char>>, base: Seq<char>) -> Seq<char> {
    if !seen.contains(base) {
        base
    } else {
        numbered(base, choose|n: nat| first_free(seen, base, n))
    }
}

/// The keys given to ports whose plain keys are `bases`, in order: each is made fresh against
/// the keys given before it.
pub open spec fn unique_keys(bases: Seq<Seq<char>>) -> Seq<Seq<char>>
    decreases bases.len(),
{
    if bases.len() == 0 {
        Seq::empty()
    } else {
        let before = unique_keys(bases.drop_last());
        before.push(fresh_key(before.to_set(), bases.last()))
    }
}

/// There is one key per plain key.
pub proof fn lemma_unique_keys_len(bases: Seq<Seq<char>>)
    ensures
        unique_keys(bases).len() == bases.len(),
    decreases bases.len(),
{
    if bases.len() > 0 {
        lemma_unique_keys_len(bases.drop_last());
    }
}

/// Decimal numbers that read the same are the same number.
pub proof fn lemma_decimal_injective(a: nat, b: nat)
    requires
        decimal(a) == decimal(b),
    ensures
        a == b,
    decreases a + b,
{
    lemma_decimal_len(a);
    lemma_decimal_len(b);
    if a < 10 && b < 10 {
        assert(decimal(a)[0] == digit_char(a));
        assert(decimal(b)[0] == digit_char(b));
    } else if a >= 10 && b >= 10 {
        let da = decimal(a / 10);
        let db = decimal(b / 10);
        assert(decimal(a) == da.push(digit_char(a % 10)));
        assert(decimal(b) == db.push(digit_char(b % 10)));
        assert(decimal(a).drop_last() =~= da);
        assert(decimal(b).drop_last() =~= db);
        lemma_decimal_injective(a / 10, b / 10);
        assert(decimal(a).last() == digit_char(a % 10));
        assert(decimal(b).last() == digit_char(b % 10));
    }
}

/// A number of ten or more has at least two digits; a smaller one has one.
proof fn lemma_decimal_len(n: nat)
    ensures
        n < 10 ==> decimal(n).len() == 1,
        n >= 10 ==> decimal(n).len() >= 2,
    decreases n,
{
    if n >= 10 {
        lemma_decimal_len(n / 10);
    }
}

/// Different numbers give different alternatives.
proof fn lemma_numbered_injective(base: Seq<char>, a: nat, b: nat)
    requires
        numbered(base, a) == numbered(base, b),
    ensures
        a == b,
{
    let prefix = base + "#"@;
    assert(numbered(base, a).subrange(prefix.len() as int, numbered(base, a).len() as int) =~= decimal(a));
    assert(numbered(base, b).subrange(prefix.len() as int, numbered(base, b).len() as int) =~= decimal(b));
    lemma_decimal_injective(a, b);
}

/// The alternatives numbered 1 to `n`.
spec fn alternatives(base: Seq<char>, n: nat) -> Set<Seq<char>>
    decreases n,
{
    if n == 0 { Set::empty() } else { alternatives(base, (n - 1) as nat).insert(numbered(base, n)) }
}

/// The alternatives numbered 1 to `n` are `n` different keys.
proof fn lemma_alternatives(base: Seq<char>, n: nat)
    ensures
        alternatives(base, n).finite(),
        alternatives(base, n).len() == n,
        forall|s: Seq<char>| #[trigger] alternatives(base, n).contains(s) <==> exists|m: nat| 1 <= m <= n && s == numbered(base, m),
    decreases n,
{
    if n > 0 {
        lemma_alternatives(base, (n - 1) as nat);
        if alternatives(base, (n - 1) as nat).contains(numbered(base, n)) {
            let m = choose|m: nat| 1 <= m <= n - 1 && numbered(base, n) == numbered(base, m);
            lemma_numbered_injective(base, n, m);
        }
        assert forall|s: Seq<char>| #[trigger] alternatives(base, n).contains(s) implies exists|m: nat| 1 <= m <= n && s == numbered(base, m) by {
            if s != numbered(base, n) {
                assert(alternatives(base, (n - 1) as nat).contains(s));
            }
        }
    }
}

/// A finite set that holds `base` and its alternatives numbered 1 to `n` has more than `n`
/// keys.
proof fn lemma_taken_alternatives(seen: Set<Seq<char>>, base: Seq<char>, n: nat)
    requires
        seen.finite(),
        seen.contains(base),
        forall|m: nat| 1 <= m <= n ==> seen.contains(#[trigger] numbered(base, m)),
    ensures
        n + 1 <= seen.len(),
{
    lemma_alternatives(base, n);
    let all = alternatives(base, n).insert(base);
    if alternatives(base, n).contains(base) {
        let m = choose|m: nat| 1 <= m <= n && base == numbered(base, m);
        assert(numbered(base, m).len() > base.len());
    }
    assert(all.subset_of(seen));
    vstd::set_lib::lemma_len_subset(all, seen);
}

/// The plain key `base` if `seen` does not hold it yet, else the first of `base#1`, `base#2`, …
/// that it does not hold; the key returned is added to `seen`.
pub fn unique_port_key(seen: &mut NameSet, base: String) -> (key: String)
    requires
        name_set_contents(*old(seen)).finite(),
        name_set_contents(*old(seen)).len() <= usize::MAX,
    ensures
        key@ == fresh_key(name_set_contents(*old(seen)), base@),
        name_set_contents(*final(seen)) == name_set_contents(*old(seen)).insert(key@),
{
    let ghost taken = name_set_contents(*seen);
    if seen.insert(base.clone()) {
        return base;
    }
    let mut n: usize = 1;
    loop
        invariant
            name_set_contents(*seen) == taken,
            taken == name_set_contents(*old(seen)),
            taken.finite(),
            taken.len() <= usize::MAX,
            taken.contains(base@),
            1 <= n <= taken.len(),
            forall|m: nat| 1 <= m < n ==> taken.contains(#[trigger] numbered(base@, m)),
        decreases taken.len() + 1 - n,
    {
        proof {
            lemma_taken_alternatives(taken, base@, (n - 1) as nat);
        }
        let mut candidate = base.clone();
        push_str(&mut candidate, "#");
        push_decimal(&mut candidate, n);
        assert(candidate@ == numbered(base@, n as nat));
        if seen.insert(candidate.clone()) {
            proof {
                assert(first_free(taken, base@, n as nat));
                let chosen = choose|m: nat| first_free(taken, base@, m);
                if chosen < n {
                    assert(taken.contains(numbered(base@, chosen)));
                } else if chosen > n {
                    assert(taken.contains(numbered(base@, n as nat)));
                }
                assert(chosen == n);
                assert(fresh_key(taken, base@) == numbered(base@, n as nat));
            }
            return candidate;
        }
        proof {
            lemma_taken_alternatives(taken, base@, n as nat);
        }
        n = n + 1;
    }
}

/// Among the alternatives to `base`, some is missing from a finite set, and so a first one is.
pub proof fn lemma_some_alternative_free(seen: Set<Seq<char>>, base: Seq<char>)
    requires
        seen.finite(),
        seen.contains(base),
    ensures
        exists|n: nat| first_free(seen, base, n),
{
    let bound = seen.len();
    if forall|m: nat| 1 <= m <= bound ==> seen.contains(#[trigger] numbered(base, m)) {
        lemma_taken_alternatives(seen, base, bound);
    }
    let n = choose|m: nat| 1 <= m <= bound && !seen.contains(#[trigger] numbered(base, m));
    lemma_first_free_below(seen, base, n);
}

/// Below an alternative missing from `seen` there is a first one missing.
proof fn lemma_first_free_below(seen: Set<Seq<char>>, base: Seq<char>, n: nat)
    requires
        n >= 1,
        !seen.contains(numbered(base, n)),
    ensures
        exists|m: nat| first_free(seen, base, m),
    decreases n,
{
    if forall|m: nat| 1 <= m < n ==> seen.contains(#[trigger] numbered(base, m)) {
        assert(first_free(seen, base, n));
    } else {
        let m = choose|m: nat| 1 <= m < n && !seen.contains(#[trigger] numbered(base, m));
        lemma_first_free_below(seen, base, m);
    }
}

} // verus!
