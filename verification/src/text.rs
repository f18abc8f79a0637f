//! Character-level helpers shared by the parsers and formatters.
//!
//! Text is modelled as `Seq<char>` (the view of `String` and `&str`).  The
//! executable helpers work on `Vec<char>` and are proved against the spec
//! functions defined here.

use vstd::prelude::*;

verus! {

// ---------------------------------------------------------------------------
// Trusted std and outside calls
// ---------------------------------------------------------------------------

/// Appends one character to a `String` (`String::push`): the contract says
/// that the characters of the string grow by exactly that character.
#[verifier::external_body]
pub(crate) fn push_char(s: &mut String, c: char)
    ensures
        final(s)@ == old(s)@.push(c),
{
    s.push(c)
}

/// What `String::from_utf8_lossy` makes of a byte sequence.
pub uninterp spec fn utf8_lossy(bytes: Seq<u8>) -> Seq<char>;

/// `String::from_utf8_lossy`: the characters are named by `utf8_lossy` of the
/// bytes; as std documents, bytes that are valid UTF-8 decode to exactly the
/// string they encode.  Which replacement characters stand for invalid input
/// is left to the name.
#[verifier::external_body]
pub(crate) fn decode_lossy(bytes: &[u8]) -> (s: String)
    ensures
        s@ == utf8_lossy(bytes@),
        vstd::utf8::valid_utf8(bytes@) ==> s@ == vstd::utf8::decode_utf8(bytes@),
{
    String::from_utf8_lossy(bytes).into_owned()
}

/// What `str::to_lowercase` makes of a string (full Unicode case mapping).
pub uninterp spec fn lowercase(s: Seq<char>) -> Seq<char>;

/// `str::to_lowercase` (the Unicode lower-case mapping).  The contract only
/// names the result: the same text always lowers to the same text; what the
/// mapping does to each character is left unsaid.
#[verifier::external_body]
pub(crate) fn to_lower(s: &str) -> (r: String)
    ensures
        r@ == lowercase(s@),
{
    s.to_lowercase()
}

/// What `str::to_uppercase` makes of a string (full Unicode case mapping).
pub uninterp spec fn uppercase(s: Seq<char>) -> Seq<char>;

/// `str::to_uppercase` (the Unicode upper-case mapping).  The contract only
/// names the result: the same text always raises to the same text; what the
/// mapping does to each character is left unsaid.
#[verifier::external_body]
pub(crate) fn to_upper(s: &str) -> (r: String)
    ensures
        r@ == uppercase(s@),
{
    s.to_uppercase()
}

/// Lower-case hex digit of a value below 16.
pub open spec fn hex_lower_digit(d: int) -> char {
    if d < 10 {
        ((48 + d) as u32) as char
    } else {
        ((87 + d) as u32) as char
    }
}

/// Upper-case hex digit of a value below 16.
pub open spec fn hex_upper_digit(d: int) -> char {
    if d < 10 {
        ((48 + d) as u32) as char
    } else {
        ((55 + d) as u32) as char
    }
}

/// Two lower-case hex digits per byte, high nibble first.
pub open spec fn hex_lower(bytes: Seq<u8>) -> Seq<char>
    decreases bytes.len(),
{
    if bytes.len() == 0 {
        Seq::empty()
    } else {
        let b = bytes.last();
        hex_lower(bytes.drop_last()).push(hex_lower_digit((b / 16) as int)).push(hex_lower_digit((b % 16) as int))
    }
}

/// `hex::encode`: two lower-case hex digits for each byte, in order.
#[verifier::external_body]
pub(crate) fn hex_encode(bytes: &[u8]) -> (s: String)
    ensures
        s@ == hex_lower(bytes@),
{
    hex::encode(bytes)
}

// ---------------------------------------------------------------------------
// Conversions between `String` / `&str` and `Vec<char>`
// ---------------------------------------------------------------------------

/// The characters of a string slice, in order.
pub fn chars_of(s: &str) -> (v: Vec<char>)
    ensures
        v@ == s@,
{
    let mut v: Vec<char> = Vec::new();
    for c in it: s.chars()
        invariant
            v@ == it.seq().take(it.index() as int),
    {
        v.push(c);
    }
    v
}

/// Builds a `String` from a slice of characters.
pub fn string_from(v: &[char]) -> (s: String)
    ensures
        s@ == v@,
{
    let mut s = String::new();
    let mut i: usize = 0;
    while i < v.len()
        invariant
            i <= v@.len(),
            s@ == v@.take(i as int),
        decreases v@.len() - i,
    {
        push_char(&mut s, v[i]);
        assert(v@.take(i as int).push(v@[i as int]) =~= v@.take(i + 1));
        i = i + 1;
    }
    assert(v@.take(v@.len() as int) =~= v@);
    s
}

/// An owned copy of a string slice.
pub fn owned(s: &str) -> (r: String)
    ensures
        r@ == s@,
{
    s.to_owned()
}

/// Appends all characters of `s` to `out`.
pub fn push_str_chars(out: &mut Vec<char>, s: &str)
    ensures
        final(out)@ == old(out)@ + s@,
{
    let v = chars_of(s);
    push_all(out, &v);
}

/// Appends a slice of characters to `out`.
pub fn push_all(out: &mut Vec<char>, v: &[char])
    ensures
        final(out)@ == old(out)@ + v@,
{
    let ghost start = out@;
    let mut i: usize = 0;
    while i < v.len()
        invariant
            i <= v@.len(),
            out@ == start + v@.take(i as int),
        decreases v@.len() - i,
    {
        out.push(v[i]);
        assert(start + v@.take(i as int).push(v@[i as int]) =~= start + v@.take(i + 1));
        i = i + 1;
    }
    assert(v@.take(v@.len() as int) =~= v@);
}

// ---------------------------------------------------------------------------
// Equality, prefixes, substrings
// ---------------------------------------------------------------------------

/// Character-wise equality of two slices.
pub fn chars_eq(a: &[char], b: &[char]) -> (r: bool)
    ensures
        r == (a@ == b@),
{
    if a.len() != b.len() {
        return false;
    }
    let mut i: usize = 0;
    while i < a.len()
        invariant
            a@.len() == b@.len(),
            i <= a@.len(),
            forall|k: int| 0 <= k < i ==> a@[k] == b@[k],
        decreases a@.len() - i,
    {
        if a[i] != b[i] {
            return false;
        }
        i = i + 1;
    }
    assert(a@ =~= b@);
    true
}

/// Equality of two string slices.
pub fn str_eq(a: &str, b: &str) -> (r: bool)
    ensures
        r == (a@ == b@),
{
    let va = chars_of(a);
    let vb = chars_of(b);
    chars_eq(&va, &vb)
}

/// `t` is a prefix of `s`.
pub open spec fn starts_with(s: Seq<char>, t: Seq<char>) -> bool {
    t.len() <= s.len() && s.take(t.len() as int) == t
}

/// `t` occurs in `s` starting at position `i`.
pub open spec fn occurs_at(s: Seq<char>, t: Seq<char>, i: int) -> bool {
    0 <= i && i + t.len() <= s.len() && s.subrange(i, i + t.len()) == t
}

/// `t` occurs somewhere in `s` (the empty sequence occurs everywhere).
pub open spec fn contains_sub(s: Seq<char>, t: Seq<char>) -> bool {
    exists|i: int| occurs_at(s, t, i)
}

/// Whether `t` occurs in `s` at position `i` (executable).
pub(crate) fn occurs_at_exec(s: &[char], t: &[char], i: usize) -> (r: bool)
    requires
        i + t@.len() <= s@.len(),
    ensures
        r == occurs_at(s@, t@, i as int),
{
    let n = s.len();
    let mut k: usize = 0;
    while k < t.len()
        invariant
            n == s@.len(),
            i + t@.len() <= n,
            k <= t@.len(),
            forall|j: int| 0 <= j < k ==> s@[i + j] == t@[j],
        decreases t@.len() - k,
    {
        if s[i + k] != t[k] {
            assert(s@.subrange(i as int, i + t@.len())[k as int] != t@[k as int]);
            return false;
        }
        k = k + 1;
    }
    assert(s@.subrange(i as int, i + t@.len()) =~= t@);
    true
}

/// Prefix test on character slices.
pub fn starts_with_chars(s: &[char], t: &[char]) -> (r: bool)
    ensures
        r == starts_with(s@, t@),
{
    if t.len() > s.len() {
        return false;
    }
    let r = occurs_at_exec(s, t, 0);
    assert(s@.subrange(0, t@.len() as int) =~= s@.take(t@.len() as int));
    r
}

/// Prefix test on string slices.
pub fn str_starts_with(s: &str, t: &str) -> (r: bool)
    ensures
        r == starts_with(s@, t@),
{
    let vs = chars_of(s);
    let vt = chars_of(t);
    starts_with_chars(&vs, &vt)
}

/// Substring test on character slices.
pub fn contains_chars(s: &[char], t: &[char]) -> (r: bool)
    ensures
        r == contains_sub(s@, t@),
{
    if t.len() > s.len() {
        return false;
    }
    let last = s.len() - t.len();
    let mut i: usize = 0;
    loop
        invariant
            last == s@.len() - t@.len(),
            i <= last,
            forall|j: int| 0 <= j < i ==> !occurs_at(s@, t@, j),
        decreases last - i,
    {
        if occurs_at_exec(s, t, i) {
            return true;
        }
        if i == last {
            return false;
        }
        i = i + 1;
    }
}

/// Substring test on string slices.
pub fn str_contains(s: &str, t: &str) -> (r: bool)
    ensures
        r == contains_sub(s@, t@),
{
    let vs = chars_of(s);
    let vt = chars_of(t);
    contains_chars(&vs, &vt)
}

// ---------------------------------------------------------------------------
// Whitespace and control characters
// ---------------------------------------------------------------------------

/// The Unicode `White_Space` property, which `char::is_whitespace` tests.
pub open spec fn is_ws(c: char) -> bool {
    let u = c as u32;
    (9 <= u && u <= 13) || u == 32 || u == 0x85 || u == 0xA0 || u == 0x1680 || (0x2000 <= u && u
        <= 0x200A) || u == 0x2028 || u == 0x2029 || u == 0x202F || u == 0x205F || u == 0x3000
}

/// `char::is_whitespace`.
pub fn is_whitespace(c: char) -> (r: bool)
    ensures
        r == is_ws(c),
{
    let u = c as u32;
    (9 <= u && u <= 13) || u == 32 || u == 0x85 || u == 0xA0 || u == 0x1680 || (0x2000 <= u && u
        <= 0x200A) || u == 0x2028 || u == 0x2029 || u == 0x202F || u == 0x205F || u == 0x3000
}

/// The general category `Cc`, which `char::is_control` tests.
pub open spec fn is_ctrl(c: char) -> bool {
    let u = c as u32;
    u <= 0x1F || (0x7F <= u && u <= 0x9F)
}

/// `char::is_control`.
pub fn is_control(c: char) -> (r: bool)
    ensures
        r == is_ctrl(c),
{
    let u = c as u32;
    u <= 0x1F || (0x7F <= u && u <= 0x9F)
}

/// Leading whitespace removed (`str::trim_start`).
pub open spec fn trim_start_ws(s: Seq<char>) -> Seq<char>
    decreases s.len(),
{
    if s.len() > 0 && is_ws(s[0]) {
        trim_start_ws(s.drop_first())
    } else {
        s
    }
}

/// Trailing whitespace removed (`str::trim_end`).
pub open spec fn trim_end_ws(s: Seq<char>) -> Seq<char>
    decreases s.len(),
{
    if s.len() > 0 && is_ws(s.last()) {
        trim_end_ws(s.drop_last())
    } else {
        s
    }
}

/// Whitespace removed at both ends (`str::trim`).
pub open spec fn trim_ws(s: Seq<char>) -> Seq<char> {
    trim_end_ws(trim_start_ws(s))
}

/// Leading `c` characters removed (`str::trim_start_matches(c)`).
pub open spec fn trim_start_char(s: Seq<char>, c: char) -> Seq<char>
    decreases s.len(),
{
    if s.len() > 0 && s[0] == c {
        trim_start_char(s.drop_first(), c)
    } else {
        s
    }
}

/// `str::trim` on a character slice.
pub fn trim_chars(s: &[char]) -> (r: Vec<char>)
    ensures
        r@ == trim_ws(s@),
{
    let mut i: usize = 0;
    assert(s@.skip(0) =~= s@);
    while i < s.len() && is_whitespace(s[i])
        invariant
            i <= s@.len(),
            trim_start_ws(s@) == trim_start_ws(s@.skip(i as int)),
        decreases s@.len() - i,
    {
        assert(s@.skip(i as int).drop_first() =~= s@.skip(i + 1));
        i = i + 1;
    }
    let mut j: usize = s.len();
    while j > i && is_whitespace(s[j - 1])
        invariant
            i <= j <= s@.len(),
            trim_start_ws(s@) == s@.skip(i as int),
            trim_ws(s@) == trim_end_ws(s@.subrange(i as int, j as int)),
        decreases j,
    {
        assert(s@.subrange(i as int, j as int).drop_last() =~= s@.subrange(i as int, j - 1));
        j = j - 1;
    }
    assert(s@.skip(i as int) =~= s@.subrange(i as int, s@.len() as int));
    let mut r: Vec<char> = Vec::new();
    let mut k: usize = i;
    while k < j
        invariant
            i <= k <= j <= s@.len(),
            r@ == s@.subrange(i as int, k as int),
        decreases j - k,
    {
        r.push(s[k]);
        assert(s@.subrange(i as int, k as int).push(s@[k as int]) =~= s@.subrange(
            i as int,
            k + 1,
        ));
        k = k + 1;
    }
    r
}

/// `str::trim_start_matches(c)` on a character slice.
pub fn trim_start_matches_char(s: &[char], c: char) -> (r: Vec<char>)
    ensures
        r@ == trim_start_char(s@, c),
{
    let mut i: usize = 0;
    assert(s@.skip(0) =~= s@);
    while i < s.len() && s[i] == c
        invariant
            i <= s@.len(),
            trim_start_char(s@, c) == trim_start_char(s@.skip(i as int), c),
        decreases s@.len() - i,
    {
        assert(s@.skip(i as int).drop_first() =~= s@.skip(i + 1));
        i = i + 1;
    }
    let r = copy_range(s, i, s.len());
    assert(s@.subrange(i as int, s@.len() as int) =~= s@.skip(i as int));
    r
}

/// The characters `s[from..to]` as a vector.
pub fn copy_range(s: &[char], from: usize, to: usize) -> (r: Vec<char>)
    requires
        from <= to <= s@.len(),
    ensures
        r@ == s@.subrange(from as int, to as int),
{
    let mut r: Vec<char> = Vec::new();
    let mut k: usize = from;
    while k < to
        invariant
            from <= k <= to <= s@.len(),
            r@ == s@.subrange(from as int, k as int),
        decreases to - k,
    {
        r.push(s[k]);
        assert(s@.subrange(from as int, k as int).push(s@[k as int]) =~= s@.subrange(
            from as int,
            k + 1,
        ));
        k = k + 1;
    }
    r
}

// ---------------------------------------------------------------------------
// Splitting
// ---------------------------------------------------------------------------

/// The pieces of `s` between occurrences of `sep` (`str::split(sep)`):
/// always at least one piece, empty pieces included.
pub open spec fn split_on(s: Seq<char>, sep: char) -> Seq<Seq<char>>
    decreases s.len(),
{
    if s.len() == 0 {
        seq![Seq::<char>::empty()]
    } else {
        let r = split_on(s.drop_last(), sep);
        if s.last() == sep {
            r.push(Seq::<char>::empty())
        } else {
            r.update(r.len() - 1, r.last().push(s.last()))
        }
    }
}

/// `str::splitn(n, sep)`: like `split_on`, but at most `n` pieces, the last
/// of which keeps the rest of the text, separators included.
pub open spec fn splitn_on(s: Seq<char>, n: nat, sep: char) -> Seq<Seq<char>>
    decreases s.len(),
{
    if s.len() == 0 {
        seq![Seq::<char>::empty()]
    } else {
        let r = splitn_on(s.drop_last(), n, sep);
        if s.last() == sep && r.len() < n {
            r.push(Seq::<char>::empty())
        } else {
            r.update(r.len() - 1, r.last().push(s.last()))
        }
    }
}

/// Splitting always gives at least one piece.
pub proof fn lemma_split_nonempty(s: Seq<char>, sep: char)
    ensures
        split_on(s, sep).len() >= 1,
    decreases s.len(),
{
    if s.len() > 0 {
        lemma_split_nonempty(s.drop_last(), sep);
    }
}

/// Splitting `a + sep + b` at `sep` gives the pieces of `a` followed by the
/// pieces of `b`.
pub proof fn lemma_split_concat(a: Seq<char>, b: Seq<char>, sep: char)
    ensures
        split_on(a + seq![sep] + b, sep) == split_on(a, sep) + split_on(b, sep),
    decreases b.len(),
{
    lemma_split_nonempty(a, sep);
    if b.len() == 0 {
        assert((a + seq![sep] + b).drop_last() =~= a);
        assert(split_on(a, sep) + split_on(b, sep) =~= split_on(a, sep).push(Seq::<char>::empty()));
    } else {
        lemma_split_concat(a, b.drop_last(), sep);
        lemma_split_nonempty(b.drop_last(), sep);
        assert((a + seq![sep] + b).drop_last() =~= a + seq![sep] + b.drop_last());
        let l = split_on(a, sep);
        let r = split_on(b.drop_last(), sep);
        if b.last() == sep {
            assert(l + r.push(Seq::<char>::empty()) =~= (l + r).push(Seq::<char>::empty()));
        } else {
            assert(l + r.update(r.len() - 1, r.last().push(b.last())) =~= (l + r).update(
                (l + r).len() - 1,
                (l + r).last().push(b.last()),
            ));
        }
    }
}

/// Text without the separator is one piece.
pub proof fn lemma_split_plain(z: Seq<char>, sep: char)
    requires
        !z.contains(sep),
    ensures
        split_on(z, sep) == seq![z],
    decreases z.len(),
{
    if z.len() > 0 {
        let d = z.drop_last();
        assert(!d.contains(sep)) by {
            if d.contains(sep) {
                let i = choose|i: int| 0 <= i < d.len() && d[i] == sep;
                assert(z[i] == sep);
            }
        }
        assert(z.last() != sep) by {
            assert(z[z.len() - 1] == z.last());
        }
        lemma_split_plain(d, sep);
        assert(d.push(z.last()) =~= z);
        assert(seq![d].update(0, d.push(z.last())) =~= seq![z]);
    } else {
        assert(z =~= Seq::<char>::empty());
    }
}

/// Splitting into at most `n` pieces gives at least one and, for `n >= 1`,
/// at most `n`.
pub proof fn lemma_splitn_nonempty(s: Seq<char>, n: nat, sep: char)
    ensures
        splitn_on(s, n, sep).len() >= 1,
        n >= 1 ==> splitn_on(s, n, sep).len() <= n,
    decreases s.len(),
{
    if s.len() > 0 {
        lemma_splitn_nonempty(s.drop_last(), n, sep);
    }
}

/// `str::split(sep)` on a character slice.
pub fn split_chars(s: &[char], sep: char) -> (r: Vec<Vec<char>>)
    ensures
        r@.len() == split_on(s@, sep).len(),
        forall|i: int| 0 <= i < r@.len() ==> #[trigger] r@[i]@ == split_on(s@, sep)[i],
{
    let mut r: Vec<Vec<char>> = Vec::new();
    let mut cur: Vec<char> = Vec::new();
    let mut i: usize = 0;
    while i < s.len()
        invariant
            i <= s@.len(),
            r@.len() + 1 == split_on(s@.take(i as int), sep).len(),
            forall|k: int| 0 <= k < r@.len() ==> #[trigger] r@[k]@ == split_on(s@.take(i as int), sep)[k],
            cur@ == split_on(s@.take(i as int), sep).last(),
        decreases s@.len() - i,
    {
        proof {
            lemma_split_nonempty(s@.take(i as int), sep);
            assert(s@.take(i + 1).drop_last() =~= s@.take(i as int));
        }
        if s[i] == sep {
            let done = cur;
            r.push(done);
            cur = Vec::new();
        } else {
            cur.push(s[i]);
        }
        i = i + 1;
    }
    proof {
        lemma_split_nonempty(s@, sep);
        assert(s@.take(s@.len() as int) =~= s@);
    }
    r.push(cur);
    r
}

/// `str::splitn(n, sep)` on a character slice.
pub fn splitn_chars(s: &[char], n: usize, sep: char) -> (r: Vec<Vec<char>>)
    requires
        n >= 1,
    ensures
        r@.len() == splitn_on(s@, n as nat, sep).len(),
        forall|i: int| 0 <= i < r@.len() ==> #[trigger] r@[i]@ == splitn_on(s@, n as nat, sep)[i],
{
    let mut r: Vec<Vec<char>> = Vec::new();
    let mut cur: Vec<char> = Vec::new();
    let mut i: usize = 0;
    while i < s.len()
        invariant
            n >= 1,
            i <= s@.len(),
            r@.len() + 1 == splitn_on(s@.take(i as int), n as nat, sep).len(),
            forall|k: int|
                0 <= k < r@.len() ==> #[trigger] r@[k]@ == splitn_on(s@.take(i as int), n as nat, sep)[k],
            cur@ == splitn_on(s@.take(i as int), n as nat, sep).last(),
        decreases s@.len() - i,
    {
        proof {
            lemma_splitn_nonempty(s@.take(i as int), n as nat, sep);
            assert(s@.take(i + 1).drop_last() =~= s@.take(i as int));
        }
        if s[i] == sep && r.len() + 1 < n {
            let done = cur;
            r.push(done);
            cur = Vec::new();
        } else {
            cur.push(s[i]);
        }
        i = i + 1;
    }
    proof {
        lemma_splitn_nonempty(s@, n as nat, sep);
        assert(s@.take(s@.len() as int) =~= s@);
    }
    r.push(cur);
    r
}

/// A line without its terminator: one trailing `'\r'` is dropped from each
/// piece that was ended by `'\n'`.
pub open spec fn strip_cr(line: Seq<char>) -> Seq<char> {
    if line.len() > 0 && line.last() == '\r' {
        line.drop_last()
    } else {
        line
    }
}

/// `str::lines`: the pieces between `'\n'`, a final empty piece dropped, and
/// `"\r\n"` endings counted as one terminator.
pub open spec fn lines_of(s: Seq<char>) -> Seq<Seq<char>> {
    let pieces = split_on(s, '\n');
    let ended = pieces.drop_last().map_values(|l: Seq<char>| strip_cr(l));
    if pieces.last().len() == 0 {
        ended
    } else {
        ended.push(pieces.last())
    }
}

/// `str::lines` on a character slice.
pub fn lines_chars(s: &[char]) -> (r: Vec<Vec<char>>)
    ensures
        r@.len() == lines_of(s@).len(),
        forall|i: int| 0 <= i < r@.len() ==> #[trigger] r@[i]@ == lines_of(s@)[i],
{
    let pieces = split_chars(s, '\n');
    proof {
        lemma_split_nonempty(s@, '\n');
    }
    let ghost sp = split_on(s@, '\n');
    let mut r: Vec<Vec<char>> = Vec::new();
    let mut i: usize = 0;
    let last = pieces.len() - 1;
    while i < last
        invariant
            pieces@.len() == sp.len(),
            last + 1 == sp.len(),
            forall|k: int| 0 <= k < pieces@.len() ==> #[trigger] pieces@[k]@ == sp[k],
            i <= last,
            r@.len() == i,
            forall|k: int| 0 <= k < i ==> #[trigger] r@[k]@ == strip_cr(sp[k]),
        decreases last - i,
    {
        let p = &pieces[i];
        let line = if p.len() > 0 && p[p.len() - 1] == '\r' {
            copy_range(p, 0, p.len() - 1)
        } else {
            copy_range(p, 0, p.len())
        };
        proof {
            assert(pieces@[i as int]@ == sp[i as int]);
            assert(p@.subrange(0, p@.len() as int) =~= p@);
            assert(p@.subrange(0, p@.len() - 1) =~= p@.drop_last());
        }
        r.push(line);
        i = i + 1;
    }
    let tail = &pieces[last];
    if tail.len() > 0 {
        let t = copy_range(tail, 0, tail.len());
        assert(tail@.subrange(0, tail@.len() as int) =~= tail@);
        r.push(t);
    }
    proof {
        let ended = sp.drop_last().map_values(|l: Seq<char>| strip_cr(l));
        assert(pieces@[last as int]@ == sp.last());
        if sp.last().len() == 0 {
            assert(r@.len() == ended.len());
        } else {
            assert(r@.len() == ended.len() + 1);
            assert(r@[last as int]@ == sp.last());
        }
    }
    r
}

// ---------------------------------------------------------------------------
// Numbers as text
// ---------------------------------------------------------------------------

/// The decimal digit character for a value below 10.
pub open spec fn digit_char(d: int) -> char {
    ((48 + d) as u32) as char
}

/// Decimal representation without leading zeros (`u64::to_string`).
pub open spec fn dec(n: nat) -> Seq<char>
    decreases n,
{
    if n < 10 {
        seq![digit_char(n as int)]
    } else {
        dec(n / 10).push(digit_char((n % 10) as int))
    }
}

/// Appends the decimal representation of `n` to `out`.
pub fn push_dec(out: &mut Vec<char>, n: u64)
    ensures
        final(out)@ == old(out)@ + dec(n as nat),
    decreases n,
{
    if n >= 10 {
        push_dec(out, n / 10);
    }
    let d = (n % 10) as u8;
    let c = (48u8 + d) as char;
    let ghost before = out@;
    out.push(c);
    proof {
        assert(c == digit_char((n % 10) as int));
        if n >= 10 {
            assert(before.push(c) =~= old(out)@ + dec(n as nat));
        } else {
            assert(before.push(c) =~= old(out)@ + dec(n as nat));
        }
    }
}

/// The decimal text of `n` as a `String`.
pub fn dec_string(n: u64) -> (s: String)
    ensures
        s@ == dec(n as nat),
{
    let mut v: Vec<char> = Vec::new();
    push_dec(&mut v, n);
    assert(Seq::<char>::empty() + dec(n as nat) =~= dec(n as nat));
    string_from(&v)
}

/// Lower-case hex of a value below 16.
pub fn hex_lower_char(d: u8) -> (c: char)
    requires
        d < 16,
    ensures
        c == hex_lower_digit(d as int),
{
    if d < 10 {
        (48u8 + d) as char
    } else {
        (87u8 + d) as char
    }
}

/// Upper-case hex of a value below 16.
pub fn hex_upper_char(d: u8) -> (c: char)
    requires
        d < 16,
    ensures
        c == hex_upper_digit(d as int),
{
    if d < 10 {
        (48u8 + d) as char
    } else {
        (55u8 + d) as char
    }
}

/// Exactly `width` upper-case hex digits of `n` (`{:0width$X}` for values
/// that fit).
pub open spec fn hex_upper_fixed(n: nat, width: nat) -> Seq<char>
    decreases width,
{
    if width == 0 {
        Seq::empty()
    } else {
        hex_upper_fixed(n / 16, (width - 1) as nat).push(hex_upper_digit((n % 16) as int))
    }
}

/// Appends exactly `width` upper-case hex digits of `n`.
pub fn push_hex_upper_fixed(out: &mut Vec<char>, n: u64, width: u8)
    ensures
        final(out)@ == old(out)@ + hex_upper_fixed(n as nat, width as nat),
    decreases width,
{
    if width > 0 {
        push_hex_upper_fixed(out, n / 16, width - 1);
        let c = hex_upper_char((n % 16) as u8);
        let ghost before = out@;
        out.push(c);
        assert(before.push(c) =~= old(out)@ + hex_upper_fixed(n as nat, width as nat));
    } else {
        assert(old(out)@ + Seq::<char>::empty() =~= old(out)@);
    }
}

/// Lower-case hex without leading zeros (`{:x}`).
pub open spec fn hex_lower_min(n: nat) -> Seq<char>
    decreases n,
{
    if n < 16 {
        seq![hex_lower_digit(n as int)]
    } else {
        hex_lower_min(n / 16).push(hex_lower_digit((n % 16) as int))
    }
}

/// Appends `n` in lower-case hex without leading zeros.
pub fn push_hex_lower_min(out: &mut Vec<char>, n: u64)
    ensures
        final(out)@ == old(out)@ + hex_lower_min(n as nat),
    decreases n,
{
    if n >= 16 {
        push_hex_lower_min(out, n / 16);
    }
    let c = hex_lower_char((n % 16) as u8);
    let ghost before = out@;
    out.push(c);
    assert(before.push(c) =~= old(out)@ + hex_lower_min(n as nat));
}

// ---------------------------------------------------------------------------
// Parsing unsigned integers (`str::parse`, `from_str_radix`)
// ---------------------------------------------------------------------------

/// The value of a digit character in the given radix (letters either case).
pub open spec fn digit_value(c: char, radix: nat) -> Option<nat> {
    let u = c as u32;
    let v: int = if 48 <= u && u <= 57 {
        u - 48
    } else if 97 <= u && u <= 122 {
        u - 87
    } else if 65 <= u && u <= 90 {
        u - 55
    } else {
        99
    };
    if v < radix {
        Some(v as nat)
    } else {
        None
    }
}

/// The value of a non-empty run of digits, if every character is a digit.
pub open spec fn digits_value(s: Seq<char>, radix: nat) -> Option<nat>
    decreases s.len(),
{
    if s.len() == 0 {
        Some(0)
    } else {
        match (digits_value(s.drop_last(), radix), digit_value(s.last(), radix)) {
            (Some(h), Some(d)) => Some(h * radix + d),
            _ => None,
        }
    }
}

/// What an unsigned `from_str_radix` (and `str::parse`) accepts: an optional
/// `'+'`, then at least one digit, with a value at most `max`.
pub open spec fn parse_uint(s: Seq<char>, radix: nat, max: nat) -> Option<nat> {
    let body = if s.len() > 0 && s[0] == '+' {
        s.drop_first()
    } else {
        s
    };
    if body.len() == 0 {
        None
    } else {
        match digits_value(body, radix) {
            Some(v) => if v <= max {
                Some(v)
            } else {
                None
            },
            None => None,
        }
    }
}

proof fn lemma_digits_monotone(s: Seq<char>, radix: nat, k: int)
    requires
        0 <= k <= s.len(),
        radix >= 1,
        digits_value(s, radix) is Some,
    ensures
        digits_value(s.take(k), radix) is Some,
        digits_value(s.take(k), radix).unwrap() <= digits_value(s, radix).unwrap(),
    decreases s.len() - k,
{
    if k < s.len() {
        assert(s.drop_last().take(k) =~= s.take(k));
        lemma_digits_monotone(s.drop_last(), radix, k);
        let h = digits_value(s.drop_last(), radix).unwrap();
        assert(h * radix >= h) by (nonlinear_arith)
            requires
                radix >= 1,
        ;
    } else {
        assert(s.take(k) =~= s);
    }
}

fn digit_of(c: char, radix: u32) -> (r: Option<u32>)
    requires
        2 <= radix <= 36,
    ensures
        r == (match digit_value(c, radix as nat) {
            Some(v) => Some(v as u32),
            None => None,
        }),
{
    let u = c as u32;
    let v: u32 = if 48 <= u && u <= 57 {
        u - 48
    } else if 97 <= u && u <= 122 {
        u - 87
    } else if 65 <= u && u <= 90 {
        u - 55
    } else {
        99
    };
    if v < radix {
        Some(v)
    } else {
        None
    }
}

/// Unsigned integer parsing with the semantics of `from_str_radix`.
pub fn parse_uint_chars(s: &[char], radix: u32, max: u64) -> (r: Option<u64>)
    requires
        2 <= radix <= 36,
    ensures
        r == (match parse_uint(s@, radix as nat, max as nat) {
            Some(v) => Some(v as u64),
            None => None,
        }),
{
    let start: usize = if s.len() > 0 && s[0] == '+' {
        1
    } else {
        0
    };
    let ghost body = if s@.len() > 0 && s@[0] == '+' {
        s@.drop_first()
    } else {
        s@
    };
    assert(body =~= s@.skip(start as int));
    if start == s.len() {
        return None;
    }
    let mut acc: u64 = 0;
    let mut i: usize = start;
    while i < s.len()
        invariant
            2 <= radix <= 36,
            start <= i <= s@.len(),
            body == s@.skip(start as int),
            body == (if s@.len() > 0 && s@[0] == '+' {
                s@.drop_first()
            } else {
                s@
            }),
            digits_value(s@.subrange(start as int, i as int), radix as nat) == Some(acc as nat),
            acc <= max,
        decreases s@.len() - i,
    {
        let ghost pre = s@.subrange(start as int, i as int);
        assert(s@.subrange(start as int, i + 1).drop_last() =~= pre);
        match digit_of(s[i], radix) {
            None => {
                proof {
                    let x = s@.subrange(start as int, i + 1);
                    assert(x.last() == s@[i as int]);
                    assert(digits_value(x, radix as nat) is None);
                    if digits_value(body, radix as nat) is Some {
                        assert(body.take(i + 1 - start) =~= s@.subrange(start as int, i + 1));
                        lemma_digits_monotone(body, radix as nat, i + 1 - start);
                    }
                    assert(digits_value(body, radix as nat) is None);
                    assert(body.len() > 0);
                    assert(parse_uint(s@, radix as nat, max as nat) is None);
                }
                return None;
            },
            Some(d) => {
                if d as u64 > max || acc > (max - d as u64) / (radix as u64) {
                    proof {
                        let v = acc as nat * radix as nat + d as nat;
                        let x = s@.subrange(start as int, i + 1);
                        assert(x.last() == s@[i as int]);
                        assert(digits_value(x, radix as nat) == Some(v));
                        if d <= max {
                            assert(v > max) by (nonlinear_arith)
                                requires
                                    acc > (max - d) / (radix as int),
                                    radix >= 2,
                                    d <= max,
                                    v == acc * radix + d,
                            ;
                        } else {
                            assert(v > max) by (nonlinear_arith)
                                requires
                                    d > max,
                                    acc >= 0,
                                    radix >= 2,
                                    v == acc * radix + d,
                            ;
                        }
                        if digits_value(body, radix as nat) is Some {
                            assert(body.take(i + 1 - start) =~= s@.subrange(start as int, i + 1));
                            lemma_digits_monotone(body, radix as nat, i + 1 - start);
                        }
                    }
                    return None;
                }
                proof {
                    let x = s@.subrange(start as int, i + 1);
                    assert(x.last() == s@[i as int]);
                    assert(acc * radix + d <= max) by (nonlinear_arith)
                        requires
                            acc <= (max - d) / (radix as int),
                            radix >= 2,
                            d <= max,
                    ;
                }
                acc = acc * (radix as u64) + d as u64;
            },
        }
        i = i + 1;
    }
    assert(s@.subrange(start as int, s@.len() as int) =~= body);
    Some(acc)
}

// ---------------------------------------------------------------------------
// Joining
// ---------------------------------------------------------------------------

/// The parts with `sep` between consecutive ones (`[T]::join`).
pub open spec fn join(parts: Seq<Seq<char>>, sep: Seq<char>) -> Seq<char>
    decreases parts.len(),
{
    if parts.len() == 0 {
        Seq::empty()
    } else if parts.len() == 1 {
        parts[0]
    } else {
        join(parts.drop_last(), sep) + sep + parts.last()
    }
}

/// The views of a vector of character vectors.
pub open spec fn views(v: Seq<Vec<char>>) -> Seq<Seq<char>> {
    v.map_values(|x: Vec<char>| x@)
}

/// Joins character vectors with a separator.
pub fn join_chars(parts: &Vec<Vec<char>>, sep: &[char]) -> (r: Vec<char>)
    ensures
        r@ == join(views(parts@), sep@),
{
    let mut r: Vec<char> = Vec::new();
    let mut i: usize = 0;
    while i < parts.len()
        invariant
            i <= parts@.len(),
            r@ == join(views(parts@.take(i as int)), sep@),
        decreases parts@.len() - i,
    {
        let ghost before = r@;
        if i > 0 {
            push_all(&mut r, sep);
        }
        push_all(&mut r, &parts[i]);
        proof {
            let a = views(parts@.take(i as int));
            let b = views(parts@.take(i + 1));
            assert(b.drop_last() =~= a);
            assert(b.last() == parts@[i as int]@);
            if i == 0 {
                assert(before =~= Seq::<char>::empty());
                assert(r@ =~= b[0]);
            } else {
                assert(r@ =~= join(a, sep@) + sep@ + b.last());
            }
        }
        i = i + 1;
    }
    assert(parts@.take(parts@.len() as int) =~= parts@);
    r
}

// ---------------------------------------------------------------------------
// Whitespace-separated words and filtering
// ---------------------------------------------------------------------------

/// The pieces of `s` between whitespace characters, empty pieces included.
pub open spec fn split_ws(s: Seq<char>) -> Seq<Seq<char>>
    decreases s.len(),
{
    if s.len() == 0 {
        seq![Seq::<char>::empty()]
    } else {
        let r = split_ws(s.drop_last());
        if is_ws(s.last()) {
            r.push(Seq::<char>::empty())
        } else {
            r.update(r.len() - 1, r.last().push(s.last()))
        }
    }
}

/// `str::split_whitespace`: the non-empty runs of non-whitespace characters.
pub open spec fn words(s: Seq<char>) -> Seq<Seq<char>> {
    split_ws(s).filter(|w: Seq<char>| w.len() > 0)
}

proof fn lemma_split_ws_nonempty(s: Seq<char>)
    ensures
        split_ws(s).len() >= 1,
    decreases s.len(),
{
    if s.len() > 0 {
        lemma_split_ws_nonempty(s.drop_last());
    }
}

/// `str::split_whitespace` on a character slice.
pub fn words_chars(s: &[char]) -> (r: Vec<Vec<char>>)
    ensures
        views(r@) == words(s@),
{
    let mut pieces: Vec<Vec<char>> = Vec::new();
    let mut cur: Vec<char> = Vec::new();
    let mut i: usize = 0;
    while i < s.len()
        invariant
            i <= s@.len(),
            pieces@.len() + 1 == split_ws(s@.take(i as int)).len(),
            forall|k: int|
                0 <= k < pieces@.len() ==> #[trigger] pieces@[k]@ == split_ws(s@.take(i as int))[k],
            cur@ == split_ws(s@.take(i as int)).last(),
        decreases s@.len() - i,
    {
        proof {
            lemma_split_ws_nonempty(s@.take(i as int));
            assert(s@.take(i + 1).drop_last() =~= s@.take(i as int));
        }
        if is_whitespace(s[i]) {
            let done = cur;
            pieces.push(done);
            cur = Vec::new();
        } else {
            cur.push(s[i]);
        }
        i = i + 1;
    }
    proof {
        lemma_split_ws_nonempty(s@);
        assert(s@.take(s@.len() as int) =~= s@);
    }
    pieces.push(cur);
    let ghost all = split_ws(s@);
    assert(views(pieces@) =~= all);
    let mut r: Vec<Vec<char>> = Vec::new();
    let mut j: usize = 0;
    while j < pieces.len()
        invariant
            j <= pieces@.len(),
            views(pieces@) == all,
            views(r@) == all.take(j as int).filter(|w: Seq<char>| w.len() > 0),
        decreases pieces@.len() - j,
    {
        let ghost before = views(r@);
        let ghost w = pieces@[j as int]@;
        proof {
            assert(all.take(j + 1) =~= all.take(j as int).push(w));
            all.take(j as int).lemma_filter_push(w, |w: Seq<char>| w.len() > 0);
        }
        if pieces[j].len() > 0 {
            let piece = copy_range(&pieces[j], 0, pieces[j].len());
            assert(pieces@[j as int]@.subrange(0, w.len() as int) =~= w);
            r.push(piece);
            assert(views(r@) =~= before.push(w));
        }
        j = j + 1;
    }
    assert(all.take(all.len() as int) =~= all);
    r
}

/// At most the first `n` elements.
pub open spec fn take_at_most<A>(s: Seq<A>, n: nat) -> Seq<A> {
    if s.len() <= n {
        s
    } else {
        s.take(n as int)
    }
}

/// Keeps the characters that are not control characters.
pub fn drop_controls(s: &[char]) -> (r: Vec<char>)
    ensures
        r@ == s@.filter(|c: char| !is_ctrl(c)),
{
    let mut r: Vec<char> = Vec::new();
    let mut i: usize = 0;
    while i < s.len()
        invariant
            i <= s@.len(),
            r@ == s@.take(i as int).filter(|c: char| !is_ctrl(c)),
        decreases s@.len() - i,
    {
        proof {
            assert(s@.take(i + 1) =~= s@.take(i as int).push(s@[i as int]));
            s@.take(i as int).lemma_filter_push(s@[i as int], |c: char| !is_ctrl(c));
        }
        if !is_control(s[i]) {
            r.push(s[i]);
        }
        i = i + 1;
    }
    assert(s@.take(s@.len() as int) =~= s@);
    r
}

/// The first `n` characters at most.
pub fn take_chars(s: &[char], n: usize) -> (r: Vec<char>)
    ensures
        r@ == take_at_most(s@, n as nat),
{
    if s.len() <= n {
        let r = copy_range(s, 0, s.len());
        assert(s@.subrange(0, s@.len() as int) =~= s@);
        r
    } else {
        copy_range(s, 0, n)
    }
}

// ---------------------------------------------------------------------------
// Searching, trimming by characters, case-insensitive comparison
// ---------------------------------------------------------------------------

/// The first position at or after `i` where `t` occurs in `s`, or -1.
pub open spec fn find_from(s: Seq<char>, t: Seq<char>, i: int) -> int
    decreases s.len() + 1 - i,
{
    if i < 0 || i > s.len() || i + t.len() > s.len() {
        -1
    } else if occurs_at(s, t, i) {
        i
    } else {
        find_from(s, t, i + 1)
    }
}

/// The first position at or after `from` where `t` occurs in `s`.
pub fn find_chars(s: &[char], t: &[char], from: usize) -> (r: Option<usize>)
    ensures
        match r {
            Some(i) => i as int == find_from(s@, t@, from as int) && i + t@.len() <= s@.len(),
            None => find_from(s@, t@, from as int) == -1,
        },
{
    let n = s.len();
    let m = t.len();
    if from > n || m > n - from {
        return None;
    }
    let mut i: usize = from;
    loop
        invariant
            n == s@.len(),
            m == t@.len(),
            from <= i,
            i + m <= n,
            find_from(s@, t@, from as int) == find_from(s@, t@, i as int),
        decreases n - i,
    {
        if occurs_at_exec(s, t, i) {
            return Some(i);
        }
        if i + m == n {
            assert(find_from(s@, t@, i + 1) == -1);
            return None;
        }
        i = i + 1;
    }
}

/// Leading characters equal to `a` or `b` removed.
pub open spec fn trim_start_pair(s: Seq<char>, a: char, b: char) -> Seq<char>
    decreases s.len(),
{
    if s.len() > 0 && (s[0] == a || s[0] == b) {
        trim_start_pair(s.drop_first(), a, b)
    } else {
        s
    }
}

/// Trailing characters equal to `a` or `b` removed.
pub open spec fn trim_end_pair(s: Seq<char>, a: char, b: char) -> Seq<char>
    decreases s.len(),
{
    if s.len() > 0 && (s.last() == a || s.last() == b) {
        trim_end_pair(s.drop_last(), a, b)
    } else {
        s
    }
}

/// Characters equal to `a` or `b` removed at both ends
/// (`str::trim_matches`).
pub open spec fn trim_pair_view(s: Seq<char>, a: char, b: char) -> Seq<char> {
    trim_end_pair(trim_start_pair(s, a, b), a, b)
}

/// Removes characters equal to `a` or `b` at both ends.
pub fn trim_pair(s: &[char], a: char, b: char) -> (r: Vec<char>)
    ensures
        r@ == trim_pair_view(s@, a, b),
{
    let mut i: usize = 0;
    assert(s@.skip(0) =~= s@);
    while i < s.len() && (s[i] == a || s[i] == b)
        invariant
            i <= s@.len(),
            trim_start_pair(s@, a, b) == trim_start_pair(s@.skip(i as int), a, b),
        decreases s@.len() - i,
    {
        assert(s@.skip(i as int).drop_first() =~= s@.skip(i + 1));
        i = i + 1;
    }
    let mut j: usize = s.len();
    while j > i && (s[j - 1] == a || s[j - 1] == b)
        invariant
            i <= j <= s@.len(),
            trim_start_pair(s@, a, b) == s@.skip(i as int),
            trim_pair_view(s@, a, b) == trim_end_pair(s@.subrange(i as int, j as int), a, b),
        decreases j,
    {
        assert(s@.subrange(i as int, j as int).drop_last() =~= s@.subrange(i as int, j - 1));
        j = j - 1;
    }
    assert(s@.skip(i as int) =~= s@.subrange(i as int, s@.len() as int));
    copy_range(s, i, j)
}

/// The code of a character with ASCII upper-case letters lowered.
pub open spec fn ascii_lower_code(c: char) -> u32 {
    let u = c as u32;
    if 65 <= u && u <= 90 {
        (u + 32) as u32
    } else {
        u
    }
}

/// Equality up to ASCII case (`str::eq_ignore_ascii_case`).
pub open spec fn eq_ignore_ascii_case(a: Seq<char>, b: Seq<char>) -> bool {
    a.len() == b.len() && forall|i: int| 0 <= i < a.len() ==> ascii_lower_code(#[trigger] a[i])
        == ascii_lower_code(b[i])
}

/// Equality up to ASCII case on character slices.
pub fn eq_ignore_ascii_case_chars(a: &[char], b: &[char]) -> (r: bool)
    ensures
        r == eq_ignore_ascii_case(a@, b@),
{
    if a.len() != b.len() {
        return false;
    }
    let mut i: usize = 0;
    while i < a.len()
        invariant
            a@.len() == b@.len(),
            i <= a@.len(),
            forall|k: int| 0 <= k < i ==> ascii_lower_code(#[trigger] a@[k]) == ascii_lower_code(b@[k]),
        decreases a@.len() - i,
    {
        let x = a[i] as u32;
        let y = b[i] as u32;
        let lx: u32 = if 65 <= x && x <= 90 {
            x + 32
        } else {
            x
        };
        let ly: u32 = if 65 <= y && y <= 90 {
            y + 32
        } else {
            y
        };
        if lx != ly {
            return false;
        }
        i = i + 1;
    }
    true
}

/// Every `from` replaced by `to`.
pub open spec fn replace_char(s: Seq<char>, from: char, to: char) -> Seq<char> {
    Seq::new(s.len(), |i: int| if s[i] == from {
        to
    } else {
        s[i]
    })
}

/// Replaces every `from` by `to`.
pub fn replace_chars(s: &[char], from: char, to: char) -> (r: Vec<char>)
    ensures
        r@ == replace_char(s@, from, to),
{
    let mut r: Vec<char> = Vec::new();
    let mut i: usize = 0;
    while i < s.len()
        invariant
            i <= s@.len(),
            r@ =~= replace_char(s@, from, to).take(i as int),
        decreases s@.len() - i,
    {
        let c = s[i];
        r.push(if c == from {
            to
        } else {
            c
        });
        i = i + 1;
    }
    assert(replace_char(s@, from, to).take(i as int) =~= replace_char(s@, from, to));
    r
}

/// How many times `c` occurs in `s`.
pub open spec fn count_char(s: Seq<char>, c: char) -> nat
    decreases s.len(),
{
    if s.len() == 0 {
        0
    } else {
        count_char(s.drop_last(), c) + if s.last() == c {
            1nat
        } else {
            0nat
        }
    }
}

/// Counts the occurrences of `c`.
pub fn count_chars(s: &[char], c: char) -> (n: usize)
    ensures
        n == count_char(s@, c),
{
    let mut n: usize = 0;
    let mut i: usize = 0;
    assert(s@.take(0) =~= Seq::<char>::empty());
    while i < s.len()
        invariant
            i <= s@.len(),
            n == count_char(s@.take(i as int), c),
            n <= i,
        decreases s@.len() - i,
    {
        assert(s@.take(i + 1).drop_last() =~= s@.take(i as int));
        if s[i] == c {
            n = n + 1;
        }
        i = i + 1;
    }
    assert(s@.take(i as int) =~= s@);
    n
}

} // verus!
