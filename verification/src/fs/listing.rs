use vstd::prelude::*;
use vstd::std_specs::iter::IteratorSpec;

verus! {

broadcast use vstd::seq_lib::group_to_multiset_ensures;

/// An entry of an ext4 directory, as the listing needs it.
pub struct DirEntryModel {
    pub name: String,
    pub inode: u32,
    pub de_type: u8,
}

/// The order of `String`: lexicographic by Unicode scalar value, which for
/// UTF-8 is the order of the bytes.
pub open spec fn name_le(a: Seq<char>, b: Seq<char>) -> bool
    decreases a.len(),
{
    if a.len() == 0 {
        true
    } else if b.len() == 0 {
        false
    } else if a[0] != b[0] {
        (a[0] as int) < (b[0] as int)
    } else {
        name_le(a.drop_first(), b.drop_first())
    }
}

/// Entries in ascending order of name.
pub open spec fn sorted_by_name(s: Seq<DirEntryModel>) -> bool {
    forall|i: int, j: int| 0 <= i < j < s.len() ==> name_le(#[trigger] s[i].name@, #[trigger] s[j].name@)
}

/// Any two names are ordered one way or the other.
pub proof fn lemma_name_le_total(a: Seq<char>, b: Seq<char>)
    ensures
        name_le(a, b) || name_le(b, a),
    decreases a.len(),
{
    if a.len() > 0 && b.len() > 0 && a[0] == b[0] {
        lemma_name_le_total(a.drop_first(), b.drop_first());
    }
}

/// The order of names is transitive.
pub proof fn lemma_name_le_transitive(a: Seq<char>, b: Seq<char>, c: Seq<char>)
    requires
        name_le(a, b),
        name_le(b, c),
    ensures
        name_le(a, c),
    decreases a.len(),
{
    if a.len() > 0 && b.len() > 0 && c.len() > 0 && a[0] == b[0] && b[0] == c[0] {
        lemma_name_le_transitive(a.drop_first(), b.drop_first(), c.drop_first());
    }
}

/// The characters of a string.
pub(crate) fn chars_of(s: &str) -> (v: Vec<char>)
    ensures
        v@ == s@,
{
    broadcast use vstd::string::group_string_axioms;

    let mut v: Vec<char> = Vec::new();
    let mut chars = s.chars();
    loop
        invariant
            s@ == v@ + chars.remaining(),
            chars.obeys_prophetic_iter_laws(),
            chars.decrease() is Some,
        decreases chars.decrease()->0,
    {
        let ghost rest = chars.remaining();
        match chars.next() {
            Some(c) => {
                v.push(c);
                assert(rest == seq![c] + rest.drop_first());
            },
            None => {
                return v;
            },
        }
    }
}

/// Whether `a` comes before `b` or equals it.
fn chars_le(a: &Vec<char>, b: &Vec<char>) -> (le: bool)
    ensures
        le == name_le(a@, b@),
{
    let mut i: usize = 0;
    assert(a@.skip(0) == a@ && b@.skip(0) == b@);
    while i < a.len() && i < b.len() && a[i] == b[i]
        invariant
            i <= a.len(),
            i <= b.len(),
            name_le(a@, b@) == name_le(a@.skip(i as int), b@.skip(i as int)),
        decreases a.len() - i,
    {
        proof {
            assert(a@.skip(i as int).drop_first() == a@.skip(i + 1));
            assert(b@.skip(i as int).drop_first() == b@.skip(i + 1));
        }
        i = i + 1;
    }
    if i == a.len() {
        true
    } else if i == b.len() {
        false
    } else {
        a[i] < b[i]
    }
}

/// Inserting an entry that no entry before `p` exceeds, and that exceeds no entry
/// from `p` on, keeps a sorted sequence sorted.
proof fn lemma_insert_sorted(s: Seq<DirEntryModel>, p: int, e: DirEntryModel)
    requires
        0 <= p <= s.len(),
        sorted_by_name(s),
        forall|j: int| 0 <= j < p ==> name_le(#[trigger] s[j].name@, e.name@),
        forall|j: int| p <= j < s.len() ==> name_le(e.name@, #[trigger] s[j].name@),
    ensures
        sorted_by_name(s.insert(p, e)),
{
    let t = s.insert(p, e);
    assert forall|i: int, j: int| 0 <= i < j < t.len() implies name_le(#[trigger] t[i].name@, #[trigger] t[j].name@) by {
        if i < p {
            if j < p {
                assert(t[i] == s[i] && t[j] == s[j]);
            } else if j == p {
                assert(t[i] == s[i]);
            } else {
                assert(t[i] == s[i] && t[j] == s[j - 1]);
            }
        } else if i == p {
            assert(t[j] == s[j - 1]);
        } else {
            assert(t[i] == s[i - 1] && t[j] == s[j - 1]);
        }
    }
}

/// String order at the first difference: after a common prefix, the name whose
/// next character has the smaller code point comes strictly first, whatever follows.
pub proof fn lemma_name_le_first_difference(p: Seq<char>, c1: char, c2: char, s: Seq<char>, t: Seq<char>)
    requires
        (c1 as int) < (c2 as int),
    ensures
        name_le(p + seq![c1] + s, p + seq![c2] + t),
        !name_le(p + seq![c2] + t, p + seq![c1] + s),
    decreases p.len(),
{
    let a = p + seq![c1] + s;
    let b = p + seq![c2] + t;
    if p.len() == 0 {
        assert(a[0] == c1 && b[0] == c2);
    } else {
        let q = p.drop_first();
        assert(a[0] == p[0] && b[0] == p[0]);
        assert(a.drop_first() == q + seq![c1] + s);
        assert(b.drop_first() == q + seq![c2] + t);
        lemma_name_le_first_difference(q, c1, c2, s, t);
    }
}

/// String order on prefixes: a name comes before every name that extends it, and
/// strictly before every longer one.
pub proof fn lemma_name_le_prefix(p: Seq<char>, s: Seq<char>)
    ensures
        name_le(p, p + s),
        s.len() > 0 ==> !name_le(p + s, p),
    decreases p.len(),
{
    if p.len() > 0 {
        let q = p.drop_first();
        assert((p + s)[0] == p[0]);
        assert((p + s).drop_first() == q + s);
        lemma_name_le_prefix(q, s);
    } else {
        assert(p + s == s);
    }
}

/// Every name comes before or equals itself.
pub proof fn lemma_name_le_reflexive(a: Seq<char>)
    ensures
        name_le(a, a),
    decreases a.len(),
{
    if a.len() > 0 {
        lemma_name_le_reflexive(a.drop_first());
    }
}

/// `p` arranges `entries` as `r`: `r[i]` is `entries[p[i]]`, every index is used
/// once, and equally named entries keep their order.
pub open spec fn is_stable_arrangement(p: Seq<int>, r: Seq<DirEntryModel>, entries: Seq<DirEntryModel>) -> bool {
    &&& p.len() == r.len()
    &&& r.len() == entries.len()
    &&& forall|i: int| 0 <= i < p.len() ==> 0 <= #[trigger] p[i] < entries.len() && r[i] == entries[p[i]]
    &&& forall|i: int, j: int| 0 <= i < j < p.len() ==> #[trigger] p[i] != #[trigger] p[j]
    &&& forall|i: int, j: int|
        0 <= i < j < p.len() && #[trigger] r[i].name@ == #[trigger] r[j].name@ ==> p[i] < p[j]
}

/// `r` is `entries` sorted by name with equally named entries in their input
/// order (what the stable `sort_by` on the names gives).
pub open spec fn is_stable_sort_of(r: Seq<DirEntryModel>, entries: Seq<DirEntryModel>) -> bool {
    &&& sorted_by_name(r)
    &&& exists|p: Seq<int>| is_stable_arrangement(p, r, entries)
}

/// The entries in ascending order of name, equally named ones in their input order.
pub fn sort_entries(entries: Vec<DirEntryModel>) -> (r: Vec<DirEntryModel>)
    ensures
        r@.to_multiset() == entries@.to_multiset(),
        is_stable_sort_of(r@, entries@),
{
    let mut input = entries;
    let mut out: Vec<DirEntryModel> = Vec::new();
    let mut keys: Vec<Vec<char>> = Vec::new();
    let ghost mut perm: Seq<int> = Seq::empty();
    proof {
        assert(entries@.take(entries@.len() as int) == entries@);
    }
    while input.len() > 0
        invariant
            out@.to_multiset().add(input@.to_multiset()) == entries@.to_multiset(),
            sorted_by_name(out@),
            keys.len() == out.len(),
            forall|j: int| 0 <= j < keys.len() ==> (#[trigger] keys[j])@ == out[j].name@,
            input@ == entries@.take(input.len() as int),
            out.len() + input.len() == entries.len(),
            perm.len() == out.len(),
            forall|i: int|
                0 <= i < perm.len() ==> input.len() <= #[trigger] perm[i] < entries.len() && out@[i]
                    == entries@[perm[i]],
            forall|i: int, j: int| 0 <= i < j < perm.len() ==> #[trigger] perm[i] != #[trigger] perm[j],
            forall|i: int, j: int|
                0 <= i < j < perm.len() && #[trigger] out@[i].name@ == #[trigger] out@[j].name@ ==> perm[i]
                    < perm[j],
        decreases input.len(),
    {
        let ghost before = input@;
        let e = input.pop().unwrap();
        let ghost n = input.len() as int;
        proof {
            assert(before == input@.push(e));
            assert(input@ == entries@.take(n));
            assert(e == entries@[n]);
        }
        let k = chars_of(e.name.as_str());
        let mut p: usize = 0;
        while p < out.len() && !chars_le(&k, &keys[p])
            invariant
                p <= out.len(),
                keys.len() == out.len(),
                forall|j: int| 0 <= j < keys.len() ==> (#[trigger] keys[j])@ == out[j].name@,
                k@ == e.name@,
                forall|j: int| 0 <= j < p ==> name_le(#[trigger] out@[j].name@, e.name@),
                forall|j: int| 0 <= j < p ==> (#[trigger] out@[j]).name@ != e.name@,
            decreases out.len() - p,
        {
            proof {
                lemma_name_le_total(k@, keys[p as int]@);
                if out@[p as int].name@ == e.name@ {
                    lemma_name_le_reflexive(k@);
                }
            }
            p = p + 1;
        }
        proof {
            assert forall|j: int| p <= j < out@.len() implies name_le(e.name@, #[trigger] out@[j].name@) by {
                assert(name_le(e.name@, out@[p as int].name@));
                if j > p {
                    lemma_name_le_transitive(e.name@, out@[p as int].name@, out@[j].name@);
                }
            }
            lemma_insert_sorted(out@, p as int, e);
        }
        let ghost old_keys = keys@;
        let ghost old_out = out@;
        let ghost old_perm = perm;
        out.insert(p, e);
        keys.insert(p, k);
        proof {
            perm = old_perm.insert(p as int, n);
            assert forall|j: int| 0 <= j < keys.len() implies (#[trigger] keys[j])@ == out[j].name@ by {
                if j > p {
                    assert(keys[j] == old_keys[j - 1] && out[j] == old_out[j - 1]);
                } else if j < p {
                    assert(keys[j] == old_keys[j] && out[j] == old_out[j]);
                }
            }
            assert forall|i: int|
                0 <= i < perm.len() implies input.len() <= #[trigger] perm[i] < entries.len() && out@[i]
                    == entries@[perm[i]] by {
                if i > p {
                    assert(perm[i] == old_perm[i - 1] && out@[i] == old_out[i - 1]);
                } else if i < p {
                    assert(perm[i] == old_perm[i] && out@[i] == old_out[i]);
                }
            }
            assert forall|i: int, j: int| 0 <= i < j < perm.len() implies #[trigger] perm[i] != #[trigger] perm[j] by {
                if i != p && j != p {
                    let oi = if i < p { i } else { i - 1 };
                    let oj = if j < p { j } else { j - 1 };
                    assert(perm[i] == old_perm[oi] && perm[j] == old_perm[oj]);
                } else if i == p {
                    assert(perm[j] == old_perm[j - 1]);
                } else {
                    assert(perm[i] == old_perm[i]);
                }
            }
            assert forall|i: int, j: int|
                0 <= i < j < perm.len() && #[trigger] out@[i].name@ == #[trigger] out@[j].name@ implies perm[i]
                    < perm[j] by {
                if i != p && j != p {
                    let oi = if i < p { i } else { i - 1 };
                    let oj = if j < p { j } else { j - 1 };
                    assert(perm[i] == old_perm[oi] && perm[j] == old_perm[oj]);
                    assert(out@[i] == old_out[oi] && out@[j] == old_out[oj]);
                } else if i == p {
                    assert(perm[j] == old_perm[j - 1]);
                } else {
                    assert(out@[i] == old_out[i]);
                }
            }
        }
    }
    proof {
        assert(is_stable_arrangement(perm, out@, entries@));
    }
    out
}

/// The names `.` and `..`, which the listing leaves out.
pub open spec fn is_dot_name(n: Seq<char>) -> bool {
    n == seq!['.'] || n == seq!['.', '.']
}

/// The entries of `s` without `.` and `..`, in their order.
pub open spec fn visible_entries(s: Seq<DirEntryModel>) -> Seq<DirEntryModel>
    decreases s.len(),
{
    if s.len() == 0 {
        s
    } else {
        let rest = visible_entries(s.drop_first());
        if is_dot_name(s[0].name@) {
            rest
        } else {
            seq![s[0]] + rest
        }
    }
}

/// The index of the first entry of `s` named `m`, or `s.len()` where none is.
pub open spec fn first_named(s: Seq<DirEntryModel>, m: Seq<char>) -> int
    decreases s.len(),
{
    if s.len() == 0 {
        0
    } else if s[0].name@ == m {
        0
    } else {
        1 + first_named(s.drop_first(), m)
    }
}

/// Where a listing resumes: just after the first entry named like the marker,
/// or at the start where there is no marker or no entry of that name.
pub open spec fn spec_listing_start(s: Seq<DirEntryModel>, marker: Option<String>) -> int {
    match marker {
        None => 0,
        Some(m) => {
            let k = first_named(s, m@);
            if k < s.len() {
                k + 1
            } else {
                0
            }
        },
    }
}

/// The listing of a directory: its entries sorted by name (equally named ones in
/// their order in the directory), from just after the marker on, without `.` and `..`.
pub open spec fn is_listing_of(
    r: Seq<DirEntryModel>,
    entries: Seq<DirEntryModel>,
    marker: Option<String>,
) -> bool {
    exists|s: Seq<DirEntryModel>|
        {
            &&& #[trigger] s.to_multiset() == entries.to_multiset()
            &&& is_stable_sort_of(s, entries)
            &&& r == visible_entries(s.skip(spec_listing_start(s, marker)))
        }
}

/// Whether a name is `.` or `..`.
fn is_dot(name: &String) -> (dot: bool)
    ensures
        dot == is_dot_name(name@),
{
    let v = chars_of(name.as_str());
    let dot = (v.len() == 1 && v[0] == '.') || (v.len() == 2 && v[0] == '.' && v[1] == '.');
    proof {
        if v.len() == 1 && v[0] == '.' {
            assert(v@ == seq!['.']);
        }
        if v.len() == 2 && v[0] == '.' && v[1] == '.' {
            assert(v@ == seq!['.', '.']);
        }
    }
    dot
}

/// The index that a listing resumes at (see `spec_listing_start`).
pub fn listing_start(entries: &Vec<DirEntryModel>, marker: &Option<String>) -> (start: usize)
    ensures
        start == spec_listing_start(entries@, *marker),
{
    match marker {
        None => 0,
        Some(m) => {
            let mut i: usize = 0;
            proof {
                assert(entries@.skip(0) == entries@);
            }
            while i < entries.len() && !(entries[i].name == *m)
                invariant
                    i <= entries.len(),
                    first_named(entries@, m@) == i + first_named(entries@.skip(i as int), m@),
                decreases entries.len() - i,
            {
                proof {
                    assert(entries@.skip(i as int).drop_first() == entries@.skip(i + 1));
                }
                i = i + 1;
            }
            proof {
                if i < entries.len() {
                    assert(entries@.skip(i as int)[0] == entries@[i as int]);
                }
            }
            if i < entries.len() {
                i + 1
            } else {
                0
            }
        },
    }
}

/// The entries of `entries` from `start` on, without `.` and `..`.
pub fn visible_from(entries: Vec<DirEntryModel>, start: usize) -> (r: Vec<DirEntryModel>)
    requires
        start <= entries.len(),
    ensures
        r@ == visible_entries(entries@.skip(start as int)),
{
    let mut all = entries;
    let mut rest = all.split_off(start);
    proof {
        assert(rest@ == entries@.skip(start as int));
    }
    let ghost tail = rest@;
    let mut out: Vec<DirEntryModel> = Vec::new();
    while rest.len() > 0
        invariant
            visible_entries(tail) == out@ + visible_entries(rest@),
        decreases rest.len(),
    {
        let ghost before = rest@;
        let e = rest.remove(0);
        proof {
            assert(rest@ == before.drop_first());
            assert(before[0] == e);
        }
        let ghost out_before = out@;
        if !is_dot(&e.name) {
            out.push(e);
            proof {
                assert(out_before + (seq![e] + visible_entries(rest@)) == out@ + visible_entries(rest@));
            }
        }
    }
    out
}

/// The listing of a directory's entries after a marker (see `is_listing_of`).
pub fn directory_listing(entries: Vec<DirEntryModel>, marker: &Option<String>) -> (r: Vec<DirEntryModel>)
    ensures
        is_listing_of(r@, entries@, *marker),
{
    let ghost given = entries@;
    let sorted = sort_entries(entries);
    let start = listing_start(&sorted, marker);
    proof {
        assert(start <= sorted.len()) by {
            lemma_first_named_bound(sorted@, *marker);
        }
    }
    let ghost s = sorted@;
    let r = visible_from(sorted, start);
    proof {
        assert(s.to_multiset() == given.to_multiset());
    }
    r
}

proof fn lemma_first_named_bound(s: Seq<DirEntryModel>, marker: Option<String>)
    ensures
        0 <= spec_listing_start(s, marker) <= s.len(),
{
    if let Some(m) = marker {
        lemma_first_named_range(s, m@);
    }
}

proof fn lemma_first_named_range(s: Seq<DirEntryModel>, m: Seq<char>)
    ensures
        0 <= first_named(s, m) <= s.len(),
    decreases s.len(),
{
    if s.len() > 0 && s[0].name@ != m {
        lemma_first_named_range(s.drop_first(), m);
    }
}

/// What `visible_entries` keeps comes from its input and is neither `.` nor `..`.
pub proof fn lemma_visible_entries(s: Seq<DirEntryModel>)
    ensures
        forall|i: int|
            #![trigger visible_entries(s)[i]]
            0 <= i < visible_entries(s).len() ==> !is_dot_name(visible_entries(s)[i].name@)
                && s.contains(visible_entries(s)[i]),
    decreases s.len(),
{
    if s.len() > 0 {
        let d = s.drop_first();
        lemma_visible_entries(d);
        let v = visible_entries(s);
        let w = visible_entries(d);
        if is_dot_name(s[0].name@) {
            assert(v == w);
        } else {
            assert(v == seq![s[0]] + w);
        }
        assert forall|i: int| #![trigger v[i]] 0 <= i < v.len() implies !is_dot_name(v[i].name@) && s.contains(v[i]) by {
            if is_dot_name(s[0].name@) {
                assert(v[i] == w[i]);
                assert(!is_dot_name(w[i].name@) && d.contains(w[i]));
                let j = choose|j: int| 0 <= j < d.len() && d[j] == w[i];
                assert(s[j + 1] == v[i]);
            } else if i == 0 {
                assert(s[0] == v[0]);
            } else {
                assert(v[i] == w[i - 1]);
                assert(!is_dot_name(w[i - 1].name@) && d.contains(w[i - 1]));
                let j = choose|j: int| 0 <= j < d.len() && d[j] == w[i - 1];
                assert(s[j + 1] == v[i]);
            }
        }
    }
}

/// A listing never shows `.` or `..`, and shows only entries of the directory.
pub proof fn lemma_listing_entries(r: Seq<DirEntryModel>, entries: Seq<DirEntryModel>, marker: Option<String>)
    requires
        is_listing_of(r, entries, marker),
    ensures
        forall|i: int| 0 <= i < r.len() ==> !is_dot_name(#[trigger] r[i].name@) && entries.contains(r[i]),
{
    let s = choose|s: Seq<DirEntryModel>|
        {
            &&& #[trigger] s.to_multiset() == entries.to_multiset()
            &&& is_stable_sort_of(s, entries)
            &&& r == visible_entries(s.skip(spec_listing_start(s, marker)))
        };
    lemma_first_named_bound(s, marker);
    let t = s.skip(spec_listing_start(s, marker));
    assert(r == visible_entries(t));
    lemma_visible_entries(t);
    assert forall|i: int| 0 <= i < r.len() implies !is_dot_name(#[trigger] r[i].name@) && entries.contains(r[i]) by {
        assert(!is_dot_name(visible_entries(t)[i].name@) && t.contains(visible_entries(t)[i]));
        let j = choose|j: int| 0 <= j < t.len() && t[j] == r[i];
        let k = j + spec_listing_start(s, marker);
        assert(s[k] == r[i]);
        vstd::seq_lib::to_multiset_contains(s, r[i]);
        vstd::seq_lib::to_multiset_contains(entries, r[i]);
    }
}

/// Where the marker names an entry of the directory, a listing that resumes after
/// it shows only entries whose names do not come before the marker.
pub proof fn lemma_listing_after_marker(r: Seq<DirEntryModel>, entries: Seq<DirEntryModel>, m: String)
    requires
        is_listing_of(r, entries, Some(m)),
        exists|j: int| 0 <= j < entries.len() && entries[j].name@ == m@,
    ensures
        forall|i: int| 0 <= i < r.len() ==> name_le(m@, #[trigger] r[i].name@),
{
    let marker = Some(m);
    let s = choose|s: Seq<DirEntryModel>|
        {
            &&& #[trigger] s.to_multiset() == entries.to_multiset()
            &&& is_stable_sort_of(s, entries)
            &&& r == visible_entries(s.skip(spec_listing_start(s, marker)))
        };
    let j0 = choose|j: int| 0 <= j < entries.len() && entries[j].name@ == m@;
    vstd::seq_lib::to_multiset_contains(entries, entries[j0]);
    vstd::seq_lib::to_multiset_contains(s, entries[j0]);
    let js = choose|j: int| 0 <= j < s.len() && s[j] == entries[j0];
    lemma_first_named_found(s, m@, js);
    let k = first_named(s, m@);
    assert(spec_listing_start(s, marker) == k + 1);
    let t = s.skip(k + 1);
    assert(r == visible_entries(t));
    lemma_visible_entries(t);
    assert forall|i: int| 0 <= i < r.len() implies name_le(m@, #[trigger] r[i].name@) by {
        assert(t.contains(visible_entries(t)[i]));
        let j = choose|j: int| 0 <= j < t.len() && t[j] == r[i];
        assert(s[j + k + 1] == r[i]);
        assert(name_le(s[k].name@, s[j + k + 1].name@));
    }
}

/// The first entry named `m` is found no later than any entry named `m`.
proof fn lemma_first_named_found(s: Seq<DirEntryModel>, m: Seq<char>, j: int)
    requires
        0 <= j < s.len(),
        s[j].name@ == m,
    ensures
        0 <= first_named(s, m) <= j,
        s[first_named(s, m)].name@ == m,
    decreases s.len(),
{
    if s[0].name@ != m {
        lemma_first_named_found(s.drop_first(), m, j - 1);
    }
}

/// `visible_entries` keeps every entry that is neither `.` nor `..`.
proof fn lemma_visible_keeps(t: Seq<DirEntryModel>, k: int)
    requires
        0 <= k < t.len(),
        !is_dot_name(t[k].name@),
    ensures
        visible_entries(t).contains(t[k]),
    decreases t.len(),
{
    let d = t.drop_first();
    let w = visible_entries(d);
    if k == 0 {
        assert(visible_entries(t) == seq![t[0]] + w);
        assert(visible_entries(t)[0] == t[0]);
    } else {
        assert(d[k - 1] == t[k]);
        lemma_visible_keeps(d, k - 1);
        let j = choose|j: int| 0 <= j < w.len() && w[j] == t[k];
        if is_dot_name(t[0].name@) {
            assert(visible_entries(t) == w);
        } else {
            assert(visible_entries(t) == seq![t[0]] + w);
            assert(visible_entries(t)[j + 1] == t[k]);
        }
    }
}

/// `first_named` is the first index whose entry has the name, or the length.
proof fn lemma_first_named_spec(s: Seq<DirEntryModel>, m: Seq<char>)
    ensures
        0 <= first_named(s, m) <= s.len(),
        first_named(s, m) < s.len() ==> s[first_named(s, m)].name@ == m,
        forall|j: int| 0 <= j < first_named(s, m) ==> (#[trigger] s[j]).name@ != m,
    decreases s.len(),
{
    if s.len() > 0 && s[0].name@ != m {
        let d = s.drop_first();
        lemma_first_named_spec(d, m);
        assert forall|j: int| 0 <= j < first_named(s, m) implies (#[trigger] s[j]).name@ != m by {
            if j > 0 {
                assert(s[j] == d[j - 1]);
            }
        }
    }
}

/// A listing shows every entry of the directory other than `.` and `..` that
/// comes after the marker: all of them without a marker or with a marker that
/// names no entry, and those whose names sort after the marker otherwise.
pub proof fn lemma_listing_complete(
    r: Seq<DirEntryModel>,
    entries: Seq<DirEntryModel>,
    marker: Option<String>,
    e: DirEntryModel,
)
    requires
        is_listing_of(r, entries, marker),
        entries.contains(e),
        !is_dot_name(e.name@),
        match marker {
            None => true,
            Some(m) => !name_le(e.name@, m@) || forall|j: int| 0 <= j < entries.len() ==> (#[trigger] entries[j]).name@ != m@,
        },
    ensures
        r.contains(e),
{
    let s = choose|s: Seq<DirEntryModel>|
        {
            &&& #[trigger] s.to_multiset() == entries.to_multiset()
            &&& is_stable_sort_of(s, entries)
            &&& r == visible_entries(s.skip(spec_listing_start(s, marker)))
        };
    vstd::seq_lib::to_multiset_contains(entries, e);
    vstd::seq_lib::to_multiset_contains(s, e);
    let k = choose|k: int| 0 <= k < s.len() && s[k] == e;
    let start = spec_listing_start(s, marker);
    if let Some(m) = marker {
        lemma_first_named_spec(s, m@);
        let f = first_named(s, m@);
        if f < s.len() {
            if k <= f {
                if k == f {
                    lemma_name_le_reflexive(m@);
                } else {
                    assert(name_le(s[k].name@, s[f].name@));
                }
                if forall|j: int| 0 <= j < entries.len() ==> (#[trigger] entries[j]).name@ != m@ {
                    vstd::seq_lib::to_multiset_contains(s, s[f]);
                    vstd::seq_lib::to_multiset_contains(entries, s[f]);
                    let a = choose|a: int| 0 <= a < entries.len() && entries[a] == s[f];
                    assert(entries[a].name@ == m@);
                }
                assert(false);
            }
        }
    }
    assert(0 <= start <= k);
    let t = s.skip(start);
    assert(t[k - start] == e);
    lemma_visible_keeps(t, k - start);
}

/// Where at most one entry is named like the marker, a listing that resumes
/// after the marker does not show that entry again.
pub proof fn lemma_listing_skips_marker(r: Seq<DirEntryModel>, entries: Seq<DirEntryModel>, m: String)
    requires
        is_listing_of(r, entries, Some(m)),
        forall|i: int, j: int|
            0 <= i < j < entries.len() && (#[trigger] entries[i]).name@ == m@ ==> (#[trigger] entries[j]).name@ != m@,
    ensures
        forall|i: int| 0 <= i < r.len() ==> (#[trigger] r[i]).name@ != m@,
{
    let marker = Some(m);
    let s = choose|s: Seq<DirEntryModel>|
        {
            &&& #[trigger] s.to_multiset() == entries.to_multiset()
            &&& is_stable_sort_of(s, entries)
            &&& r == visible_entries(s.skip(spec_listing_start(s, marker)))
        };
    let p = choose|p: Seq<int>| is_stable_arrangement(p, s, entries);
    lemma_first_named_spec(s, m@);
    let f = first_named(s, m@);
    let start = spec_listing_start(s, marker);
    let t = s.skip(start);
    assert(r == visible_entries(t));
    lemma_visible_entries(t);
    assert forall|i: int| 0 <= i < r.len() implies (#[trigger] r[i]).name@ != m@ by {
        assert(t.contains(visible_entries(t)[i]));
        let j = choose|j: int| 0 <= j < t.len() && t[j] == r[i];
        let k = j + start;
        assert(s[k] == r[i]);
        if r[i].name@ == m@ {
            if f < s.len() {
                assert(k > f);
                let a = p[f];
                let b = p[k];
                assert(a != b);
                assert(entries[a] == s[f] && entries[b] == s[k]);
                if a < b {
                    assert(entries[a].name@ == m@);
                } else {
                    assert(entries[b].name@ == m@);
                }
            } else {
                assert(f == s.len());
                assert(s[k].name@ != m@);
            }
        }
    }
}

/// What became of a listed entry when it was offered to the caller's buffer.
#[derive(Debug, Clone, Copy, PartialEq, Eq, Structural)]
pub enum FillOutcome {
    /// The entry's name does not fit a directory record; the entry is skipped.
    NameRejected,
    /// The entry's record was added to the buffer.
    Added,
    /// The buffer had no room for the record; the listing stops here.
    BufferFull,
}

/// Copying a directory listing into the caller's buffer: the entries are offered
/// in order, one at a time, until they run out or the buffer is full.
pub struct DirectoryFill {
    entries: Vec<DirEntryModel>,
    next: usize,
    stopped: bool,
}

impl DirectoryFill {
    /// The entries to be offered.
    pub closed spec fn listed(&self) -> Seq<DirEntryModel> {
        self.entries@
    }

    /// How many entries have been offered.
    pub closed spec fn offered(&self) -> int {
        self.next as int
    }

    /// Whether the buffer turned out to be full.
    pub closed spec fn stopped(&self) -> bool {
        self.stopped
    }

    /// Nothing offered yet.
    pub fn new(entries: Vec<DirEntryModel>) -> (f: DirectoryFill)
        ensures
            f.listed() == entries@,
            f.offered() == 0,
            !f.stopped(),
    {
        DirectoryFill { entries, next: 0, stopped: false }
    }

    /// The index of the entry to offer next, if any: none once the buffer is full
    /// or every entry has been offered.
    pub fn next_index(&self) -> (i: Option<usize>)
        ensures
            i == if !self.stopped() && self.offered() < self.listed().len() {
                Some(self.offered() as usize)
            } else {
                None
            },
    {
        if !self.stopped && self.next < self.entries.len() {
            Some(self.next)
        } else {
            None
        }
    }

    /// The entry at an index.
    pub fn entry(&self, i: usize) -> (e: &DirEntryModel)
        requires
            i < self.listed().len(),
        ensures
            *e == self.listed()[i as int],
    {
        &self.entries[i]
    }

    /// Records what became of the entry just offered: a rejected name or an added
    /// record moves on to the next entry, a full buffer ends the listing.
    pub fn record(&mut self, outcome: FillOutcome)
        requires
            !old(self).stopped(),
            old(self).offered() < old(self).listed().len(),
        ensures
            final(self).listed() == old(self).listed(),
            outcome == FillOutcome::BufferFull ==> final(self).stopped() && final(self).offered() == old(
                self,
            ).offered(),
            outcome != FillOutcome::BufferFull ==> !final(self).stopped() && final(self).offered() == old(
                self,
            ).offered() + 1,
    {
        match outcome {
            FillOutcome::BufferFull => {
                self.stopped = true;
            },
            _ => {
                let n = self.entries.len();
                proof {
                    assert(self.next < n);
                }
                self.next = self.next + 1;
            },
        }
    }
}

} // verus!
