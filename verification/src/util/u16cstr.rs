use vstd::prelude::*;
use vstd::std_specs::iter::IteratorSpec;
use widestring::U16CStr;

verus! {

#[verifier::external_type_specification]
#[verifier::external_body]
pub struct ExU16CStr(U16CStr);

/// The UTF-16 code units of a wide C string, without its nul terminator.
pub uninterp spec fn wide_units(s: &U16CStr) -> Seq<u16>;

/// The replacement character U+FFFD that lossy decoding puts for invalid UTF-16.
pub open spec fn replacement_char() -> char {
    '\u{FFFD}'
}

/// Whether a UTF-16 unit is a leading (high) surrogate.
pub open spec fn is_high_surrogate(u: u16) -> bool {
    0xD800 <= u <= 0xDBFF
}

/// Whether a UTF-16 unit is a trailing (low) surrogate.
pub open spec fn is_low_surrogate(u: u16) -> bool {
    0xDC00 <= u <= 0xDFFF
}

/// The character that a surrogate pair encodes.
pub open spec fn surrogate_pair_char(hi: u16, lo: u16) -> char {
    (0x10000 + (hi - 0xD800) * 0x400 + (lo - 0xDC00)) as char
}

/// What `String::from_utf16_lossy` makes of UTF-16 code units (`char::decode_utf16`,
/// with every error replaced by U+FFFD): a unit outside the surrogate range is its
/// own character, a high surrogate followed by a low one is the character of the
/// pair, and any other surrogate is U+FFFD (the unit after an unpaired high
/// surrogate is decoded afresh).
pub open spec fn utf16_lossy(units: Seq<u16>) -> Seq<char>
    decreases units.len(),
{
    if units.len() == 0 {
        Seq::empty()
    } else {
        let u = units[0];
        if !(0xD800 <= u <= 0xDFFF) {
            seq![u as char] + utf16_lossy(units.drop_first())
        } else if is_high_surrogate(u) && units.len() > 1 && is_low_surrogate(units[1]) {
            seq![surrogate_pair_char(u, units[1])] + utf16_lossy(units.subrange(2, units.len() as int))
        } else {
            seq![replacement_char()] + utf16_lossy(units.drop_first())
        }
    }
}

/// The UTF-16 units of one character (what `char::encode_utf16` writes).
pub open spec fn char_utf16(c: char) -> Seq<u16> {
    if (c as int) < 0x10000 {
        seq![c as u16]
    } else {
        let v = (c as int) - 0x10000;
        seq![(0xD800 + v / 0x400) as u16, (0xDC00 + v % 0x400) as u16]
    }
}

/// The UTF-16 encoding of a text (what `str::encode_utf16` yields).
pub open spec fn encode_utf16(s: Seq<char>) -> Seq<u16>
    decreases s.len(),
{
    if s.len() == 0 {
        Seq::empty()
    } else {
        char_utf16(s[0]) + encode_utf16(s.drop_first())
    }
}

/// A character is a Unicode scalar value.
proof fn lemma_char_range(c: char)
    ensures
        0 <= c as int <= 0x10FFFF,
        !(0xD800 <= c as int <= 0xDFFF),
        (c as int) < 0x10000 ==> (c as u16) as int == c as int,
        ((c as int) as char) == c,
{
}

/// Decoding the UTF-16 encoding of a text gives the text back.
pub proof fn lemma_utf16_round_trip(s: Seq<char>)
    ensures
        utf16_lossy(encode_utf16(s)) == s,
    decreases s.len(),
{
    if s.len() > 0 {
        let c = s[0];
        lemma_char_range(c);
        let rest = encode_utf16(s.drop_first());
        lemma_utf16_round_trip(s.drop_first());
        let u = char_utf16(c) + rest;
        assert(u == encode_utf16(s));
        if (c as int) < 0x10000 {
            assert(u[0] == c as u16);
            assert(u.drop_first() == rest);
            let x = c as u16;
            assert(x as int == c as int);
            assert(!(0xD800 <= x <= 0xDFFF));
            assert(((x as int) as char) == c);
        } else {
            let v = (c as int) - 0x10000;
            assert(0 <= v <= 0xFFFFF);
            assert(0 <= v / 0x400 <= 0x3FF);
            assert(0 <= v % 0x400 <= 0x3FF);
            assert(v == (v / 0x400) * 0x400 + v % 0x400);
            let hi = (0xD800 + v / 0x400) as u16;
            let lo = (0xDC00 + v % 0x400) as u16;
            assert(hi as int == 0xD800 + v / 0x400);
            assert(lo as int == 0xDC00 + v % 0x400);
            assert(u[0] == hi && u[1] == lo);
            assert(is_high_surrogate(hi) && is_low_surrogate(lo));
            assert(0x10000 + (hi - 0xD800) * 0x400 + (lo - 0xDC00) == c as int);
            assert(u.subrange(2, u.len() as int) == rest);
            assert(surrogate_pair_char(u[0], u[1]) == c);
        }
        assert(s == seq![c] + s.drop_first());
    }
}

/// `U16CStr::to_string_lossy` of the `widestring` crate, which is
/// `String::from_utf16_lossy` of the string's units (nul terminator excluded):
/// UTF-16 decoding with invalid sequences replaced by U+FFFD. The contract claims
/// that the result is `utf16_lossy` of `wide_units(s)`; which units a given wide
/// string holds is left to the name `wide_units`.
#[verifier::external_body]
pub(crate) fn wide_to_string_lossy(s: &U16CStr) -> (r: String)
    ensures
        r@ == utf16_lossy(wide_units(s)),
{
    s.to_string_lossy()
}

/// `String::push` of std: appends one character.
#[verifier::external_body]
pub(crate) fn push_char(s: &mut String, c: char)
    ensures
        final(s)@ == old(s)@.push(c),
{
    s.push(c)
}

/// Windows separates path components with `\`, ext4 with `/`.
pub open spec fn slash_for_backslash(c: char) -> char {
    if c == '\\' {
        '/'
    } else {
        c
    }
}

/// Every `\` replaced by `/`.
pub open spec fn backslashes_to_slashes(s: Seq<char>) -> Seq<char> {
    s.map_values(|c: char| slash_for_backslash(c))
}

/// `s` without the run of `c` at its end (`trim_end_matches(c)`).
pub open spec fn trim_end_char(s: Seq<char>, c: char) -> Seq<char>
    decreases s.len(),
{
    if s.len() > 0 && s.last() == c {
        trim_end_char(s.drop_last(), c)
    } else {
        s
    }
}

/// `s` with every run of consecutive `/` shrunk to a single `/`: a `/` is kept
/// unless the character kept just before it is a `/` too.
pub open spec fn collapse_slashes(s: Seq<char>) -> Seq<char>
    decreases s.len(),
{
    if s.len() == 0 {
        s
    } else {
        let p = collapse_slashes(s.drop_last());
        if s.last() == '/' && p.len() > 0 && p.last() == '/' {
            p
        } else {
            p.push(s.last())
        }
    }
}

/// The first normalisation: separators turned to `/`, trailing nul characters removed.
pub open spec fn spec_sanitize_basic(raw: Seq<char>) -> Seq<char> {
    trim_end_char(backslashes_to_slashes(raw), '\0')
}

/// The ext4 path that a Windows file name stands for: separators turned to `/`,
/// trailing nul characters removed, runs of `/` collapsed, the root written `/`,
/// a leading `/` added where missing and trailing `/` removed.
pub open spec fn spec_sanitize_path(raw: Seq<char>) -> Seq<char> {
    let s = collapse_slashes(spec_sanitize_basic(raw));
    if s.len() == 0 || s == seq!['/'] {
        seq!['/']
    } else {
        let t = if s[0] == '/' {
            s
        } else {
            seq!['/'].add(s)
        };
        if t.len() > 1 {
            trim_end_char(t, '/')
        } else {
            t
        }
    }
}

/// An absolute path in the form that `sanitize` produces: it starts with `/`,
/// holds no `\`, never two `/` in a row, and ends in `/` only when it is the root.
pub open spec fn is_canonical_path(p: Seq<char>) -> bool {
    &&& p.len() >= 1
    &&& p[0] == '/'
    &&& !p.contains('\\')
    &&& forall|i: int| 0 <= i < p.len() - 1 ==> !(#[trigger] p[i] == '/' && p[i + 1] == '/')
    &&& p.len() > 1 ==> p.last() != '/'
}

/// The characters of `raw` with every `\` turned to `/`.
fn separators_to_slashes(raw: &str) -> (v: Vec<char>)
    ensures
        v@ == backslashes_to_slashes(raw@),
{
    broadcast use vstd::string::group_string_axioms;

    let mut v: Vec<char> = Vec::new();
    let mut chars = raw.chars();
    loop
        invariant
            backslashes_to_slashes(raw@) == v@ + backslashes_to_slashes(chars.remaining()),
            chars.obeys_prophetic_iter_laws(),
            chars.decrease() is Some,
        decreases chars.decrease()->0,
    {
        let ghost rest = chars.remaining();
        match chars.next() {
            Some(c) => {
                assert(backslashes_to_slashes(rest) == seq![slash_for_backslash(c)] + backslashes_to_slashes(rest.drop_first()));
                if c == '\\' {
                    v.push('/');
                } else {
                    v.push(c);
                }
            },
            None => {
                assert(backslashes_to_slashes(rest) == Seq::<char>::empty());
                return v;
            },
        }
    }
}

/// Trimming a prefix of `s` that ends on the run of `c` at the end of `s`
/// gives what trimming `s` gives.
proof fn lemma_trim_take(s: Seq<char>, c: char, k: int)
    requires
        0 < k <= s.len(),
        s[k - 1] == c,
        trim_end_char(s, c) == trim_end_char(s.take(k), c),
    ensures
        trim_end_char(s, c) == trim_end_char(s.take(k - 1), c),
{
    assert(s.take(k).drop_last() == s.take(k - 1));
}

/// The length of the prefix of `v[..n]` that `trim_end_matches(c)` leaves.
fn trimmed_len(v: &Vec<char>, n: usize, c: char) -> (k: usize)
    requires
        n <= v.len(),
    ensures
        k <= n,
        v@.take(k as int) == trim_end_char(v@.take(n as int), c),
{
    let mut k = n;
    while k > 0 && v[k - 1] == c
        invariant
            k <= n <= v.len(),
            trim_end_char(v@.take(n as int), c) == trim_end_char(v@.take(k as int), c),
        decreases k,
    {
        proof {
            let t = v@.take(n as int);
            assert(v@.take(k as int) == t.take(k as int));
            lemma_trim_take(t, c, k as int);
            assert(t.take(k - 1) == v@.take(k - 1));
        }
        k = k - 1;
    }
    proof {
        let p = v@.take(k as int);
        assert(p.len() == 0 || p.last() != c);
    }
    k
}

/// `v[..n]` with runs of `/` collapsed.
fn collapse_prefix(v: &Vec<char>, n: usize) -> (w: Vec<char>)
    requires
        n <= v.len(),
    ensures
        w@ == collapse_slashes(v@.take(n as int)),
{
    let mut w: Vec<char> = Vec::new();
    let mut i: usize = 0;
    while i < n
        invariant
            i <= n <= v.len(),
            w@ == collapse_slashes(v@.take(i as int)),
        decreases n - i,
    {
        let c = v[i];
        proof {
            assert(v@.take(i + 1).drop_last() == v@.take(i as int));
            assert(v@.take(i + 1).last() == c);
        }
        if !(c == '/' && w.len() > 0 && w[w.len() - 1] == '/') {
            w.push(c);
        }
        i = i + 1;
    }
    w
}

/// The string made of `v[..n]`.
fn string_of_prefix(v: &Vec<char>, n: usize) -> (r: String)
    requires
        n <= v.len(),
    ensures
        r@ == v@.take(n as int),
{
    let mut r = String::new();
    let mut i: usize = 0;
    while i < n
        invariant
            i <= n <= v.len(),
            r@ == v@.take(i as int),
        decreases n - i,
    {
        push_char(&mut r, v[i]);
        proof {
            assert(v@.take(i + 1) == v@.take(i as int).push(v@[i as int]));
        }
        i = i + 1;
    }
    r
}

/// Separators turned to `/` and trailing nul characters removed.
pub fn sanitize_basic(raw: &str) -> (r: String)
    ensures
        r@ == spec_sanitize_basic(raw@),
{
    let v = separators_to_slashes(raw);
    let k = trimmed_len(&v, v.len(), '\0');
    proof {
        assert(v@.take(v.len() as int) == v@);
    }
    string_of_prefix(&v, k)
}

/// The ext4 path for a Windows file name (see `spec_sanitize_path`).
pub fn sanitize_path(raw: &str) -> (r: String)
    ensures
        r@ == spec_sanitize_path(raw@),
{
    let v = separators_to_slashes(raw);
    let k = trimmed_len(&v, v.len(), '\0');
    proof {
        assert(v@.take(v.len() as int) == v@);
    }
    let s = collapse_prefix(&v, k);
    if s.len() == 0 || (s.len() == 1 && s[0] == '/') {
        proof {
            if s.len() == 1 {
                assert(s@ == seq!['/']);
            }
        }
        let mut root = String::new();
        push_char(&mut root, '/');
        return root;
    }
    proof {
        assert(s@ != seq!['/']);
    }
    let mut t: Vec<char> = Vec::new();
    if s[0] != '/' {
        t.push('/');
    }
    let mut i: usize = 0;
    let ghost t0 = t@;
    while i < s.len()
        invariant
            i <= s.len(),
            t@ == t0 + s@.take(i as int),
        decreases s.len() - i,
    {
        t.push(s[i]);
        proof {
            assert(s@.take(i + 1) == s@.take(i as int).push(s@[i as int]));
        }
        i = i + 1;
    }
    proof {
        assert(s@.take(s.len() as int) == s@);
        if s@[0] == '/' {
            assert(t@ == s@);
        } else {
            assert(t@ == seq!['/'].add(s@));
        }
        assert(t@.take(t.len() as int) == t@);
    }
    let k2 = trimmed_len(&t, t.len(), '/');
    string_of_prefix(&t, k2)
}

/// Conversion of Windows file names to ext4 paths.
pub trait U16CStrExt {
    fn sanitize(&self) -> String;
}

impl U16CStrExt for U16CStr {
    fn sanitize(&self) -> (r: String)
        ensures
            r@ == spec_sanitize_path(utf16_lossy(wide_units(self))),
    {
        let raw = wide_to_string_lossy(self);
        sanitize_path(raw.as_str())
    }
}

/// Trimming keeps a prefix, and what it keeps does not end in the trimmed character.
pub proof fn lemma_trim_end_char(s: Seq<char>, c: char)
    ensures
        trim_end_char(s, c).len() <= s.len(),
        trim_end_char(s, c) == s.take(trim_end_char(s, c).len() as int),
        trim_end_char(s, c).len() > 0 ==> trim_end_char(s, c).last() != c,
        forall|i: int| trim_end_char(s, c).len() <= i < s.len() ==> s[i] == c,
    decreases s.len(),
{
    if s.len() > 0 && s.last() == c {
        lemma_trim_end_char(s.drop_last(), c);
        let t = trim_end_char(s.drop_last(), c);
        assert(s.drop_last().take(t.len() as int) == s.take(t.len() as int));
        assert forall|i: int| t.len() <= i < s.len() implies s[i] == c by {
            if i < s.len() - 1 {
                assert(s[i] == s.drop_last()[i]);
            }
        }
    } else {
        assert(s.take(s.len() as int) == s);
    }
}

/// Collapsing keeps the first and the last character, keeps only characters of
/// its input, and leaves no two `/` in a row.
pub proof fn lemma_collapse_slashes(s: Seq<char>)
    ensures
        collapse_slashes(s).len() <= s.len(),
        (collapse_slashes(s).len() == 0) == (s.len() == 0),
        s.len() > 0 ==> collapse_slashes(s)[0] == s[0],
        s.len() > 0 ==> collapse_slashes(s).last() == s.last(),
        forall|i: int| 0 <= i < collapse_slashes(s).len() ==> s.contains(#[trigger] collapse_slashes(s)[i]),
        forall|i: int|
            0 <= i < collapse_slashes(s).len() - 1 ==> !(#[trigger] collapse_slashes(s)[i] == '/'
                && collapse_slashes(s)[i + 1] == '/'),
    decreases s.len(),
{
    if s.len() > 0 {
        let d = s.drop_last();
        lemma_collapse_slashes(d);
        let p = collapse_slashes(d);
        assert forall|i: int| 0 <= i < collapse_slashes(s).len() implies s.contains(#[trigger] collapse_slashes(s)[i]) by {
            if i < p.len() {
                assert(d.contains(p[i]));
                let j = choose|j: int| 0 <= j < d.len() && d[j] == p[i];
                assert(s[j] == p[i]);
            } else {
                assert(s[s.len() - 1] == s.last());
            }
        }
        if d.len() == 0 {
            assert(collapse_slashes(s) == seq![s.last()]);
        }
    }
}

/// No character other than `/` appears in a collapsed sequence unless it is in the input.
proof fn lemma_collapse_not_contains(s: Seq<char>, x: char)
    requires
        !s.contains(x),
    ensures
        !collapse_slashes(s).contains(x),
{
    lemma_collapse_slashes(s);
    if collapse_slashes(s).contains(x) {
        let i = choose|i: int| 0 <= i < collapse_slashes(s).len() && collapse_slashes(s)[i] == x;
        assert(s.contains(collapse_slashes(s)[i]));
    }
}

/// A sequence with no two `/` in a row is its own collapse.
proof fn lemma_collapse_identity(s: Seq<char>)
    requires
        forall|i: int| 0 <= i < s.len() - 1 ==> !(#[trigger] s[i] == '/' && s[i + 1] == '/'),
    ensures
        collapse_slashes(s) == s,
    decreases s.len(),
{
    if s.len() > 0 {
        let d = s.drop_last();
        assert forall|i: int| 0 <= i < d.len() - 1 implies !(#[trigger] d[i] == '/' && d[i + 1] == '/') by {
            assert(d[i] == s[i] && d[i + 1] == s[i + 1]);
        }
        lemma_collapse_identity(d);
        if d.len() > 0 {
            assert(s[d.len() - 1] == d.last());
        }
        assert(d.push(s.last()) == s);
    }
}

/// A prefix keeps what the whole sequence lacks.
proof fn lemma_take_not_contains(s: Seq<char>, k: int, x: char)
    requires
        0 <= k <= s.len(),
        !s.contains(x),
    ensures
        !s.take(k).contains(x),
{
    if s.take(k).contains(x) {
        let i = choose|i: int| 0 <= i < k && s.take(k)[i] == x;
        assert(s[i] == x);
    }
}

/// Every sanitized path is in canonical form.
pub proof fn lemma_sanitize_canonical(raw: Seq<char>)
    ensures
        is_canonical_path(spec_sanitize_path(raw)),
{
    let m = backslashes_to_slashes(raw);
    assert(!m.contains('\\')) by {
        if m.contains('\\') {
            let i = choose|i: int| 0 <= i < m.len() && m[i] == '\\';
            assert(m[i] == slash_for_backslash(raw[i]));
        }
    }
    let b = spec_sanitize_basic(raw);
    lemma_trim_end_char(m, '\0');
    lemma_take_not_contains(m, b.len() as int, '\\');
    let s = collapse_slashes(b);
    lemma_collapse_slashes(b);
    lemma_collapse_not_contains(b, '\\');
    let r = spec_sanitize_path(raw);
    if s.len() == 0 || s == seq!['/'] {
        assert(r == seq!['/']);
        assert(!r.contains('\\')) by {
            if r.contains('\\') {
                let i = choose|i: int| 0 <= i < r.len() && r[i] == '\\';
            }
        }
    } else {
        let t = if s[0] == '/' { s } else { seq!['/'].add(s) };
        assert(t[0] == '/');
        if s.len() == 1 && s[0] == '/' {
            assert(s =~= seq!['/']);
        }
        assert(t.len() >= 2);
        assert(t[1] != '/') by {
            if s[0] == '/' {
                assert(s.len() >= 2);
                if s[1] == '/' {
                    assert(s[0int] == '/' && s[0int + 1] == '/');
                }
            } else {
                assert(t[1] == s[0]);
            }
        }
        assert forall|i: int| 0 <= i < t.len() - 1 implies !(#[trigger] t[i] == '/' && t[i + 1] == '/') by {
            if s[0] != '/' && i > 0 {
                assert(t[i] == s[i - 1] && t[i + 1] == s[i]);
            }
        }
        assert(!t.contains('\\')) by {
            if t.contains('\\') {
                let i = choose|i: int| 0 <= i < t.len() && t[i] == '\\';
                if s[0] != '/' {
                    assert(t[i] == s[i - 1]);
                }
            }
        }
        lemma_trim_end_char(t, '/');
        assert(r == trim_end_char(t, '/'));
        assert(r.len() >= 2) by {
            if r.len() < 2 {
                assert(t[1] == '/');
            }
        }
        lemma_take_not_contains(t, r.len() as int, '\\');
        assert(r[0] == t[0]);
        assert forall|i: int| 0 <= i < r.len() - 1 implies !(#[trigger] r[i] == '/' && r[i + 1] == '/') by {
            assert(r[i] == t[i] && r[i + 1] == t[i + 1]);
        }
    }
}

/// A canonical path that does not end in a nul character is left as it is.
pub proof fn lemma_sanitize_fixed_point(p: Seq<char>)
    requires
        is_canonical_path(p),
        p.last() != '\0',
    ensures
        spec_sanitize_path(p) == p,
{
    let m = backslashes_to_slashes(p);
    assert(m == p) by {
        assert forall|i: int| 0 <= i < p.len() implies m[i] == p[i] by {
            if p[i] == '\\' {
                assert(p.contains('\\'));
            }
        }
    }
    assert(trim_end_char(p, '\0') == p);
    lemma_collapse_identity(p);
    if p == seq!['/'] {
    } else {
        if p.len() == 1 {
            assert(p =~= seq!['/']);
        }
        assert(p.len() > 1);
        assert(trim_end_char(p, '/') == p);
    }
}

/// Sanitizing a name that holds no nul character twice gives what sanitizing it once gives.
pub proof fn lemma_sanitize_idempotent(raw: Seq<char>)
    requires
        !raw.contains('\0'),
    ensures
        spec_sanitize_path(spec_sanitize_path(raw)) == spec_sanitize_path(raw),
{
    let r = spec_sanitize_path(raw);
    lemma_sanitize_canonical(raw);
    let m = backslashes_to_slashes(raw);
    assert(!m.contains('\0')) by {
        if m.contains('\0') {
            let i = choose|i: int| 0 <= i < m.len() && m[i] == '\0';
            assert(m[i] == slash_for_backslash(raw[i]));
            assert(raw[i] == '\0');
        }
    }
    let b = spec_sanitize_basic(raw);
    lemma_trim_end_char(m, '\0');
    lemma_take_not_contains(m, b.len() as int, '\0');
    let s = collapse_slashes(b);
    lemma_collapse_not_contains(b, '\0');
    assert(!r.contains('\0')) by {
        if r.contains('\0') {
            let i = choose|i: int| 0 <= i < r.len() && r[i] == '\0';
            if s.len() == 0 || s == seq!['/'] {
                assert(r == seq!['/']);
            } else {
                let t = if s[0] == '/' { s } else { seq!['/'].add(s) };
                lemma_trim_end_char(t, '/');
                assert(r[i] == t[i]);
                if s[0] != '/' && i > 0 {
                    assert(t[i] == s[i - 1]);
                }
            }
        }
    }
    assert(r.last() != '\0') by {
        assert(r[r.len() - 1] == r.last());
    }
    lemma_sanitize_fixed_point(r);
}

/// A sanitized name, encoded again as UTF-16 and sanitized once more, gives the
/// same path, for names whose decoding holds no nul character.
pub proof fn lemma_sanitize_reencoded(units: Seq<u16>)
    requires
        !utf16_lossy(units).contains('\0'),
    ensures
        spec_sanitize_path(utf16_lossy(encode_utf16(spec_sanitize_path(utf16_lossy(units)))))
            == spec_sanitize_path(utf16_lossy(units)),
{
    let r = spec_sanitize_path(utf16_lossy(units));
    lemma_utf16_round_trip(r);
    lemma_sanitize_idempotent(utf16_lossy(units));
}

/// `sanitize` of a wide string that holds the UTF-16 encoding of what `sanitize`
/// gave for another (as `U16CString::from_str` builds it) gives that same path.
pub proof fn lemma_wide_sanitize_round_trip(a: &U16CStr, b: &U16CStr)
    requires
        !utf16_lossy(wide_units(a)).contains('\0'),
        wide_units(b) == encode_utf16(spec_sanitize_path(utf16_lossy(wide_units(a)))),
    ensures
        spec_sanitize_path(utf16_lossy(wide_units(b))) == spec_sanitize_path(utf16_lossy(wide_units(a))),
{
    lemma_sanitize_reencoded(wide_units(a));
}

/// Trailing nul characters make no difference to either normalisation.
pub proof fn lemma_sanitize_ignores_trailing_nul(raw: Seq<char>)
    ensures
        spec_sanitize_basic(raw.push('\0')) == spec_sanitize_basic(raw),
        spec_sanitize_path(raw.push('\0')) == spec_sanitize_path(raw),
{
    let m = backslashes_to_slashes(raw.push('\0'));
    assert(m == backslashes_to_slashes(raw).push('\0'));
    assert(m.drop_last() == backslashes_to_slashes(raw));
}

/// `\` and `/` are the same separator to both normalisations.
pub proof fn lemma_sanitize_backslash_is_slash(raw: Seq<char>)
    ensures
        spec_sanitize_basic(backslashes_to_slashes(raw)) == spec_sanitize_basic(raw),
        spec_sanitize_path(backslashes_to_slashes(raw)) == spec_sanitize_path(raw),
{
    let m = backslashes_to_slashes(raw);
    assert(backslashes_to_slashes(m) =~= m);
}

/// A run of `/` collapses to a single `/`.
proof fn lemma_collapse_all_slashes(s: Seq<char>)
    requires
        s.len() > 0,
        forall|i: int| 0 <= i < s.len() ==> s[i] == '/',
    ensures
        collapse_slashes(s) == seq!['/'],
    decreases s.len(),
{
    if s.len() > 1 {
        lemma_collapse_all_slashes(s.drop_last());
        assert(s.last() == s[s.len() - 1]);
    } else {
        assert(s.drop_last().len() == 0);
        assert(collapse_slashes(s.drop_last()) == Seq::<char>::empty());
        assert(s.last() == s[0]);
        assert(Seq::<char>::empty().push('/') == seq!['/']);
    }
}

/// A name made only of separators stands for the root `/`.
pub proof fn lemma_sanitize_separators_only(raw: Seq<char>)
    requires
        forall|i: int| 0 <= i < raw.len() ==> raw[i] == '/' || raw[i] == '\\',
    ensures
        spec_sanitize_path(raw) == seq!['/'],
{
    let m = backslashes_to_slashes(raw);
    assert(forall|i: int| 0 <= i < m.len() ==> m[i] == '/');
    if m.len() > 0 {
        assert(m.last() == '/');
        assert(trim_end_char(m, '\0') == m);
        lemma_collapse_all_slashes(m);
    } else {
        assert(trim_end_char(m, '\0') == m);
    }
}

/// Trimming `c` from `x + y` trims `y`, and reaches into `x` only where `y`
/// is all `c`.
proof fn lemma_trim_concat(x: Seq<char>, y: Seq<char>, c: char)
    ensures
        trim_end_char(x + y, c) == if trim_end_char(y, c).len() > 0 {
            x + trim_end_char(y, c)
        } else {
            trim_end_char(x, c)
        },
    decreases y.len(),
{
    if y.len() == 0 {
        assert(x + y == x);
    } else {
        assert((x + y).drop_last() == x + y.drop_last());
        assert((x + y).last() == y.last());
        lemma_trim_concat(x, y.drop_last(), c);
        if y.last() != c {
            assert(trim_end_char(y, c) == y);
        }
    }
}

/// Collapsing is decided by the collapsed prefix: prefixes that collapse alike
/// still collapse alike after the same continuation.
proof fn lemma_collapse_concat(a: Seq<char>, b: Seq<char>, q: Seq<char>)
    requires
        collapse_slashes(a) == collapse_slashes(b),
    ensures
        collapse_slashes(a + q) == collapse_slashes(b + q),
    decreases q.len(),
{
    if q.len() == 0 {
        assert(a + q == a);
        assert(b + q == b);
    } else {
        assert((a + q).drop_last() == a + q.drop_last());
        assert((b + q).drop_last() == b + q.drop_last());
        assert((a + q).last() == q.last() && (b + q).last() == q.last());
        lemma_collapse_concat(a, b, q.drop_last());
    }
}

/// A single character is its own collapse.
proof fn lemma_collapse_one(c: char)
    ensures
        collapse_slashes(seq![c]) == seq![c],
{
    let s = seq![c];
    assert(s.drop_last() == Seq::<char>::empty());
    assert(collapse_slashes(Seq::<char>::empty()) == Seq::<char>::empty());
    assert(s.last() == c);
    assert(Seq::<char>::empty().push(c) == s);
}

/// A `/` put in front of a sequence that does not start with `/` stays in front.
proof fn lemma_collapse_slash_front(b: Seq<char>)
    requires
        b.len() == 0 || b[0] != '/',
    ensures
        collapse_slashes(seq!['/'] + b) == seq!['/'] + collapse_slashes(b),
    decreases b.len(),
{
    if b.len() == 0 {
        assert(seq!['/'] + b == seq!['/']);
        lemma_collapse_one('/');
    } else {
        let d = b.drop_last();
        assert((seq!['/'] + b).drop_last() == seq!['/'] + d);
        assert((seq!['/'] + b).last() == b.last());
        if d.len() > 0 {
            assert(d[0] == b[0]);
        }
        lemma_collapse_slash_front(d);
        lemma_collapse_slashes(d);
        if d.len() == 0 {
            assert(b.last() == b[0]);
        } else {
            assert((seq!['/'] + collapse_slashes(d)).last() == collapse_slashes(d).last());
        }
        assert((seq!['/'] + collapse_slashes(d)).push(b.last()) == seq!['/'] + collapse_slashes(d).push(b.last()));
    }
}

/// A doubled `/` anywhere is the same as a single one.
pub proof fn lemma_sanitize_collapses_double_slash(p: Seq<char>, q: Seq<char>)
    ensures
        spec_sanitize_path(p + seq!['/', '/'] + q) == spec_sanitize_path(p + seq!['/'] + q),
{
    let mp = backslashes_to_slashes(p);
    let mq = backslashes_to_slashes(q);
    assert(backslashes_to_slashes(p + seq!['/', '/'] + q) == mp + seq!['/', '/'] + mq);
    assert(backslashes_to_slashes(p + seq!['/'] + q) == mp + seq!['/'] + mq);
    lemma_trim_concat(mp + seq!['/', '/'], mq, '\0');
    lemma_trim_concat(mp + seq!['/'], mq, '\0');
    assert(trim_end_char(mp + seq!['/', '/'], '\0') == mp + seq!['/', '/']);
    assert(trim_end_char(mp + seq!['/'], '\0') == mp + seq!['/']);
    // the doubled prefix collapses like the single one
    let a = mp + seq!['/', '/'];
    let b = mp + seq!['/'];
    assert(a.drop_last() == b);
    lemma_collapse_slashes(b);
    assert(collapse_slashes(a) == collapse_slashes(b));
    let tq = trim_end_char(mq, '\0');
    if tq.len() > 0 {
        lemma_collapse_concat(a, b, tq);
    }
}

/// A leading `/` makes no difference.
pub proof fn lemma_sanitize_leading_slash(raw: Seq<char>)
    ensures
        spec_sanitize_path(seq!['/'] + raw) == spec_sanitize_path(raw),
{
    let m = backslashes_to_slashes(raw);
    assert(backslashes_to_slashes(seq!['/'] + raw) == seq!['/'] + m);
    lemma_trim_concat(seq!['/'], m, '\0');
    let b = spec_sanitize_basic(raw);
    assert(trim_end_char(seq!['/'], '\0') == seq!['/']);
    assert(spec_sanitize_basic(seq!['/'] + raw) == seq!['/'] + b) by {
        if b.len() == 0 {
            assert(seq!['/'] + b == seq!['/']);
        }
    }
    let s = collapse_slashes(b);
    lemma_collapse_slashes(b);
    if b.len() == 0 {
        assert(seq!['/'] + b == seq!['/']);
        lemma_collapse_one('/');
    } else if b[0] == '/' {
        let rest = b.drop_first();
        assert(b == seq!['/'] + rest);
        assert(seq!['/'] + b == seq!['/', '/'] + rest);
        assert(seq!['/', '/'].drop_last() == seq!['/']);
        lemma_collapse_one('/');
        assert(collapse_slashes(seq!['/', '/']) == collapse_slashes(seq!['/']));
        lemma_collapse_concat(seq!['/', '/'], seq!['/'], rest);
    } else {
        lemma_collapse_slash_front(b);
        let s1 = seq!['/'] + s;
        assert(s1.len() >= 2);
        assert(s1 != seq!['/']);
        assert(s[0] == b[0]);
        if s == seq!['/'] {
            assert(s[0] == '/');
        }
    }
}

/// A trailing `/` makes no difference to a name that does not end in a nul character.
pub proof fn lemma_sanitize_trailing_slash(raw: Seq<char>)
    requires
        raw.len() == 0 || raw.last() != '\0',
    ensures
        spec_sanitize_path(raw.push('/')) == spec_sanitize_path(raw),
{
    let m = backslashes_to_slashes(raw);
    assert(backslashes_to_slashes(raw.push('/')) == m.push('/'));
    assert(m.push('/').drop_last() == m);
    assert(spec_sanitize_basic(raw.push('/')) == m.push('/'));
    if m.len() > 0 {
        assert(m.last() == slash_for_backslash(raw.last()));
    }
    assert(spec_sanitize_basic(raw) == m);
    let c = collapse_slashes(m);
    lemma_collapse_slashes(m);
    if m.len() == 0 {
        assert(m.push('/') == seq!['/']);
        lemma_collapse_one('/');
    } else if c.last() == '/' {
        assert(collapse_slashes(m.push('/')) == c);
    } else {
        let c1 = c.push('/');
        assert(collapse_slashes(m.push('/')) == c1);
        assert(c != seq!['/']);
        assert(c1 != seq!['/']) by {
            assert(c1.len() >= 2);
        }
        assert(c1[0] == c[0]);
        let t = if c[0] == '/' { c } else { seq!['/'].add(c) };
        let t1 = if c1[0] == '/' { c1 } else { seq!['/'].add(c1) };
        assert(t1 == t.push('/'));
        assert(t.push('/').drop_last() == t);
        assert(trim_end_char(t1, '/') == trim_end_char(t, '/'));
        if c[0] == '/' {
            assert(c.len() > 1);
        } else {
            assert(t.len() > 1);
        }
    }
}

/// The plain normalisation leaves alone a name without `\` that does not end
/// in a nul character.
pub proof fn lemma_sanitize_basic_fixed_point(x: Seq<char>)
    requires
        !x.contains('\\'),
        x.len() == 0 || x.last() != '\0',
    ensures
        spec_sanitize_basic(x) == x,
{
    let m = backslashes_to_slashes(x);
    assert(m =~= x) by {
        assert forall|i: int| 0 <= i < x.len() implies m[i] == x[i] by {
            if x[i] == '\\' {
                assert(x.contains('\\'));
            }
        }
    }
}

/// A surrogate that is not the high half of a pair decodes to U+FFFD, and the
/// decoding goes on with the next unit.
pub proof fn lemma_utf16_unpaired_surrogate(u: u16, rest: Seq<u16>)
    requires
        0xD800 <= u <= 0xDFFF,
        !(0xD800 <= u <= 0xDBFF && rest.len() > 0 && 0xDC00 <= rest[0] <= 0xDFFF),
    ensures
        utf16_lossy(seq![u] + rest) == seq!['\u{FFFD}'] + utf16_lossy(rest),
{
    let units = seq![u] + rest;
    assert(units[0] == u);
    assert(units.drop_first() == rest);
    if units.len() > 1 {
        assert(units[1] == rest[0]);
    }
}

/// A unit outside the surrogate range decodes to the character of that value.
pub proof fn lemma_utf16_plain_unit(u: u16, rest: Seq<u16>)
    requires
        !(0xD800 <= u <= 0xDFFF),
    ensures
        utf16_lossy(seq![u] + rest) == seq![u as char] + utf16_lossy(rest),
        (utf16_lossy(seq![u] + rest)[0] as int) == u as int,
{
    let units = seq![u] + rest;
    assert(units[0] == u);
    assert(units.drop_first() == rest);
    assert(((u as int) as char) as int == u as int);
}

} // verus!
