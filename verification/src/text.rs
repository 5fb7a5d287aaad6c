//! Verified helpers over `&str` / `String`, used by every parser in the
//! crate: equality, prefix/suffix tests, substring search, splitting,
//! trimming and character mapping, each specified over the `Seq<char>` view.
use vstd::prelude::*;
use vstd::string::*;

verus! {

/// The views of a sequence of owned strings.
pub open spec fn seq_views(ss: Seq<String>) -> Seq<Seq<char>> {
    ss.map_values(|s: String| s@)
}

/// Relies on String::push: appends exactly the given character at the end.
#[verifier::external_body]
pub fn push_char(s: &mut String, c: char)
    ensures
        final(s)@ == old(s)@.push(c),
{
    s.push(c);
}

/// First index at which `x` occurs in `s`, if any.
pub open spec fn first_index_of<A>(s: Seq<A>, x: A) -> Option<int>
    decreases s.len(),
{
    if s.len() == 0 {
        None
    } else if s[0] == x {
        Some(0int)
    } else {
        match first_index_of(s.drop_first(), x) {
            Some(i) => Some(i + 1),
            None => None,
        }
    }
}

pub proof fn lemma_first_index_of<A>(s: Seq<A>, x: A)
    ensures
        match first_index_of(s, x) {
            Some(i) => 0 <= i < s.len() && s[i] == x && (forall|j: int|
                0 <= j < i ==> s[j] != x),
            None => !s.contains(x),
        },
    decreases s.len(),
{
    if s.len() > 0 && s[0] != x {
        lemma_first_index_of(s.drop_first(), x);
        let t = s.drop_first();
        match first_index_of(t, x) {
            Some(i) => {
                assert(s[i + 1] == t[i]);
                assert forall|j: int| 0 <= j < i + 1 implies s[j] != x by {
                    if j > 0 {
                        assert(t[j - 1] == s[j]);
                    }
                }
            },
            None => {
                if s.contains(x) {
                    let j = choose|j: int| 0 <= j < s.len() && s[j] == x;
                    assert(t[j - 1] == s[j]);
                    assert(t.contains(x));
                }
            },
        }
    }
}

pub proof fn lemma_first_index_of_found<A>(s: Seq<A>, x: A, i: int)
    requires
        0 <= i < s.len(),
        s[i] == x,
        forall|j: int| 0 <= j < i ==> s[j] != x,
    ensures
        first_index_of(s, x) == Some(i),
{
    lemma_first_index_of(s, x);
    match first_index_of(s, x) {
        Some(k) => {
            if k < i {
                assert(s[k] == x);
            }
        },
        None => {
            assert(s.contains(x));
        },
    }
}

pub proof fn lemma_first_index_of_absent<A>(s: Seq<A>, x: A)
    requires
        forall|j: int| 0 <= j < s.len() ==> s[j] != x,
    ensures
        first_index_of(s, x) is None,
{
    lemma_first_index_of(s, x);
    if first_index_of(s, x) is Some {
        let i = first_index_of(s, x)->Some_0;
        assert(s[i] == x);
    }
}

/// Character-for-character equality of two string slices.
pub fn str_eq(a: &str, b: &str) -> (r: bool)
    ensures
        r == (a@ == b@),
{
    let alen = a.unicode_len();
    let blen = b.unicode_len();
    if alen != blen {
        return false;
    }
    let mut i: usize = 0;
    while i < alen
        invariant
            i <= alen,
            alen == a@.len(),
            alen == b@.len(),
            forall|j: int| 0 <= j < i ==> a@[j] == b@[j],
        decreases alen - i,
    {
        if a.get_char(i) != b.get_char(i) {
            return false;
        }
        i += 1;
    }
    proof {
        assert(a@ =~= b@);
    }
    true
}

pub open spec fn spec_starts_with(s: Seq<char>, p: Seq<char>) -> bool {
    p.len() <= s.len() && s.subrange(0, p.len() as int) == p
}

pub open spec fn spec_ends_with(s: Seq<char>, p: Seq<char>) -> bool {
    p.len() <= s.len() && s.subrange(s.len() - p.len(), s.len() as int) == p
}

pub fn has_prefix(s: &str, p: &str) -> (r: bool)
    ensures
        r == spec_starts_with(s@, p@),
{
    let plen = p.unicode_len();
    let slen = s.unicode_len();
    if plen > slen {
        return false;
    }
    let mut i: usize = 0;
    while i < plen
        invariant
            i <= plen <= slen,
            plen == p@.len(),
            slen == s@.len(),
            forall|j: int| 0 <= j < i ==> s@[j] == p@[j],
        decreases plen - i,
    {
        if s.get_char(i) != p.get_char(i) {
            assert(s@.subrange(0, plen as int)[i as int] != p@[i as int]);
            return false;
        }
        i += 1;
    }
    proof {
        assert(s@.subrange(0, plen as int) =~= p@);
    }
    true
}

pub fn has_suffix(s: &str, p: &str) -> (r: bool)
    ensures
        r == spec_ends_with(s@, p@),
{
    let plen = p.unicode_len();
    let slen = s.unicode_len();
    if plen > slen {
        return false;
    }
    let off = slen - plen;
    let mut i: usize = 0;
    while i < plen
        invariant
            i <= plen <= slen,
            off == slen - plen,
            plen == p@.len(),
            slen == s@.len(),
            forall|j: int| 0 <= j < i ==> s@[off + j] == p@[j],
        decreases plen - i,
    {
        if s.get_char(off + i) != p.get_char(i) {
            assert(s@.subrange(slen - plen, slen as int)[i as int] != p@[i as int]);
            return false;
        }
        i += 1;
    }
    proof {
        assert(s@.subrange(slen - plen, slen as int) =~= p@);
    }
    true
}

/// `p` occurs in `s` at position `i`.
pub open spec fn contains_at(s: Seq<char>, p: Seq<char>, i: int) -> bool {
    0 <= i && i + p.len() <= s.len() && s.subrange(i, i + p.len() as int) == p
}

pub open spec fn spec_contains(s: Seq<char>, p: Seq<char>) -> bool {
    exists|i: int| contains_at(s, p, i)
}

/// Index of the first occurrence of `p` in `s`, if any.
pub open spec fn first_match(s: Seq<char>, p: Seq<char>) -> Option<int>
    decreases s.len(),
{
    if p.len() > s.len() {
        None
    } else if s.subrange(0, p.len() as int) == p {
        Some(0int)
    } else if s.len() == 0 {
        None
    } else {
        match first_match(s.drop_first(), p) {
            Some(i) => Some(i + 1),
            None => None,
        }
    }
}

pub proof fn lemma_first_match(s: Seq<char>, p: Seq<char>)
    ensures
        match first_match(s, p) {
            Some(i) => contains_at(s, p, i) && (forall|j: int|
                0 <= j < i ==> !contains_at(s, p, j)),
            None => !spec_contains(s, p),
        },
    decreases s.len(),
{
    if p.len() > s.len() {
        if spec_contains(s, p) {
            let i = choose|i: int| contains_at(s, p, i);
            assert(i >= 0 && i + p.len() <= s.len());
        }
    } else if s.subrange(0, p.len() as int) == p {
        assert(contains_at(s, p, 0));
    } else if s.len() == 0 {
        if spec_contains(s, p) {
            let i = choose|i: int| contains_at(s, p, i);
            assert(i == 0 && p.len() == 0);
            assert(s.subrange(0, p.len() as int) == p);
        }
    } else {
        lemma_first_match(s.drop_first(), p);
        let t = s.drop_first();
        match first_match(s, p) {
            Some(i) => {
                let it = (i - 1) as int;
                assert(first_match(t, p) == Some(it));
                assert(t.subrange(it, it + p.len() as int) == p);
                lemma_subrange_shift(s, p.len() as int, it);
                assert(contains_at(s, p, i));
                assert forall|j: int| 0 <= j < i implies !contains_at(s, p, j) by {
                    if j == 0 {
                        assert(s.subrange(0, p.len() as int) != p);
                    } else {
                        assert(!contains_at(t, p, j - 1));
                        if contains_at(s, p, j) {
                            lemma_subrange_shift(s, p.len() as int, j - 1);
                        }
                    }
                }
            },
            None => {
                assert(first_match(t, p) is None);
                if spec_contains(s, p) {
                    let j = choose|j: int| contains_at(s, p, j);
                    if j == 0 {
                        assert(s.subrange(0, p.len() as int) == p);
                    } else {
                        lemma_subrange_shift(s, p.len() as int, j - 1);
                        assert(contains_at(t, p, j - 1));
                    }
                }
            },
        }
    }
}

/// A window of `s.drop_first()` is the same window of `s` shifted by one.
proof fn lemma_subrange_shift(s: Seq<char>, n: int, j: int)
    requires
        0 <= n,
        0 <= j,
        j + 1 + n <= s.len(),
    ensures
        s.drop_first().subrange(j, j + n) == s.subrange(j + 1, j + 1 + n),
{
    assert(s.drop_first().subrange(j, j + n) =~= s.subrange(j + 1, j + 1 + n));
}

/// Finds the first occurrence of `p` in `s`.
pub fn find_sub(s: &str, p: &str) -> (r: Option<usize>)
    requires
        p@.len() > 0,
    ensures
        match r {
            Some(i) => first_match(s@, p@) == Some(i as int),
            None => first_match(s@, p@) is None,
        },
{
    proof {
        lemma_first_match(s@, p@);
    }
    let plen = p.unicode_len();
    let slen = s.unicode_len();
    if plen > slen {
        return None;
    }
    let bound = slen - plen;
    let mut i: usize = 0;
    while i <= bound
        invariant
            plen == p@.len(),
            slen == s@.len(),
            1 <= plen <= slen,
            bound == slen - plen,
            i <= bound + 1,
            forall|j: int| 0 <= j < i ==> !contains_at(s@, p@, j),
        decreases bound + 1 - i,
    {
        let piece = s.substring_char(i, i + plen);
        if str_eq(piece, p) {
            proof {
                assert(contains_at(s@, p@, i as int));
                lemma_first_match(s@, p@);
                match first_match(s@, p@) {
                    Some(k) => {
                        assert(!(k < i) && !(i < k));
                    },
                    None => {
                        assert(!spec_contains(s@, p@));
                    },
                }
            }
            return Some(i);
        }
        assert(!contains_at(s@, p@, i as int));
        i += 1;
    }
    proof {
        assert(forall|j: int| contains_at(s@, p@, j) ==> 0 <= j && j + plen <= slen);
        match first_match(s@, p@) {
            Some(k) => {
                assert(contains_at(s@, p@, k));
            },
            None => {},
        }
    }
    None
}

pub fn contains_sub(s: &str, p: &str) -> (r: bool)
    requires
        p@.len() > 0,
    ensures
        r == spec_contains(s@, p@),
{
    proof {
        lemma_first_match(s@, p@);
    }
    match find_sub(s, p) {
        Some(_) => true,
        None => false,
    }
}

/// Splitting `s` on a non-empty separator, at each leftmost occurrence.
pub open spec fn spec_split(s: Seq<char>, sep: Seq<char>) -> Seq<Seq<char>>
    decreases s.len() via spec_split_decreases
{
    if sep.len() == 0 {
        seq![s]
    } else {
        match first_match(s, sep) {
            Some(i) => seq![s.subrange(0, i)] + spec_split(
                s.subrange(i + sep.len(), s.len() as int),
                sep,
            ),
            None => seq![s],
        }
    }
}

#[via_fn]
proof fn spec_split_decreases(s: Seq<char>, sep: Seq<char>) {
    lemma_first_match(s, sep);
}

pub fn split_str(s: &str, sep: &str) -> (r: Vec<String>)
    requires
        sep@.len() > 0,
    ensures
        seq_views(r@) == spec_split(s@, sep@),
{
    let mut out: Vec<String> = Vec::new();
    let mut rest: String = String::from_str(s);
    let seplen = sep.unicode_len();
    loop
        invariant
            seplen == sep@.len(),
            seplen > 0,
            spec_split(s@, sep@) =~= seq_views(out@) + spec_split(rest@, sep@),
        decreases rest@.len(),
    {
        let ghost prev = out@;
        let ghost rest_view = rest@;
        match find_sub(rest.as_str(), sep) {
            Some(i) => {
                proof {
                    lemma_first_match(rest@, sep@);
                }
                let piece = rest.as_str().substring_char(0, i);
                let rlen = rest.unicode_len();
                let next = String::from_str(rest.as_str().substring_char(i + seplen, rlen));
                out.push(String::from_str(piece));
                rest = next;
                proof {
                    assert(seq_views(out@) =~= seq_views(prev).push(piece@));
                    assert(spec_split(rest_view, sep@) == seq![rest_view.subrange(0, i as int)]
                        + spec_split(rest@, sep@));
                }
            },
            None => {
                out.push(rest);
                proof {
                    assert(spec_split(rest_view, sep@) =~= seq![rest_view]);
                    assert(seq_views(out@) =~= seq_views(prev).push(rest_view));
                }
                return out;
            },
        }
    }
}

/// ASCII whitespace, the only kind the parsed file formats use.
pub open spec fn is_ws(c: char) -> bool {
    c == ' ' || c == '\t' || c == '\r' || c == '\n'
}

pub fn ws_char(c: char) -> (r: bool)
    ensures
        r == is_ws(c),
{
    c == ' ' || c == '\t' || c == '\r' || c == '\n'
}

/// Length of the leading run of non-whitespace characters.
pub open spec fn token_len(s: Seq<char>) -> int
    decreases s.len(),
{
    if s.len() == 0 || is_ws(s[0]) {
        0
    } else {
        1 + token_len(s.drop_first())
    }
}

pub proof fn lemma_token_len(s: Seq<char>)
    ensures
        0 <= token_len(s) <= s.len(),
        forall|j: int| 0 <= j < token_len(s) ==> !is_ws(s[j]),
        token_len(s) < s.len() ==> is_ws(s[token_len(s)]),
    decreases s.len(),
{
    if s.len() > 0 && !is_ws(s[0]) {
        lemma_token_len(s.drop_first());
        let t = s.drop_first();
        assert forall|j: int| 0 <= j < token_len(s) implies !is_ws(s[j]) by {
            if j > 0 {
                assert(t[j - 1] == s[j]);
            }
        }
        if token_len(s) < s.len() {
            assert(t[token_len(s) - 1] == s[token_len(s)]);
        }
    }
}

/// Splitting into maximal runs of non-whitespace characters.
pub open spec fn spec_split_ws(s: Seq<char>) -> Seq<Seq<char>>
    decreases s.len() via spec_split_ws_decreases
{
    if s.len() == 0 {
        Seq::empty()
    } else if is_ws(s[0]) {
        spec_split_ws(s.drop_first())
    } else {
        seq![s.subrange(0, token_len(s))] + spec_split_ws(
            s.subrange(token_len(s), s.len() as int),
        )
    }
}

#[via_fn]
proof fn spec_split_ws_decreases(s: Seq<char>) {
    lemma_token_len(s);
}

pub fn split_ws(s: &str) -> (r: Vec<String>)
    ensures
        seq_views(r@) == spec_split_ws(s@),
{
    let slen = s.unicode_len();
    let mut out: Vec<String> = Vec::new();
    let mut i: usize = 0;
    proof {
        assert(s@.subrange(0, slen as int) =~= s@);
    }
    while i < slen
        invariant
            slen == s@.len(),
            i <= slen,
            spec_split_ws(s@) =~= seq_views(out@) + spec_split_ws(
                s@.subrange(i as int, slen as int),
            ),
        decreases slen - i,
    {
        let ghost prev = out@;
        let ghost rest = s@.subrange(i as int, slen as int);
        let c = s.get_char(i);
        if ws_char(c) {
            proof {
                assert(rest.drop_first() =~= s@.subrange(i + 1, slen as int));
            }
            i += 1;
        } else {
            let mut j = i;
            while j < slen && !ws_char(s.get_char(j))
                invariant
                    slen == s@.len(),
                    i <= j <= slen,
                    rest == s@.subrange(i as int, slen as int),
                    forall|k: int| 0 <= k < j - i ==> !is_ws(rest[k]),
                decreases slen - j,
            {
                assert(!is_ws(rest[j - i]));
                j += 1;
            }
            proof {
                lemma_token_len(rest);
                assert(token_len(rest) == j - i) by {
                    if token_len(rest) < j - i {
                        assert(!is_ws(rest[token_len(rest)]));
                    }
                    if token_len(rest) > j - i {
                        assert(!is_ws(rest[j - i]));
                        assert(j < slen);
                        assert(is_ws(rest[j - i]));
                    }
                }
            }
            let tok = s.substring_char(i, j);
            out.push(String::from_str(tok));
            proof {
                assert(tok@ =~= rest.subrange(0, token_len(rest)));
                assert(seq_views(out@) =~= seq_views(prev).push(tok@));
                assert(rest.subrange(token_len(rest), rest.len() as int) =~= s@.subrange(
                    j as int,
                    slen as int,
                ));
            }
            i = j;
        }
    }
    proof {
        assert(s@.subrange(slen as int, slen as int) =~= Seq::<char>::empty());
    }
    out
}

/// One trailing carriage return removed, as a line terminator's remnant.
pub open spec fn strip_cr(s: Seq<char>) -> Seq<char> {
    if s.len() > 0 && s[s.len() - 1] == '\r' {
        s.drop_last()
    } else {
        s
    }
}

/// The lines of `s`: pieces between newline characters, a carriage return
/// before each newline dropped, and no empty piece after a final newline.
pub open spec fn spec_lines(s: Seq<char>) -> Seq<Seq<char>>
    decreases s.len() via spec_lines_decreases
{
    if s.len() == 0 {
        Seq::empty()
    } else {
        match first_match(s, seq!['\n']) {
            Some(i) => seq![strip_cr(s.subrange(0, i))] + spec_lines(
                s.subrange(i + 1, s.len() as int),
            ),
            None => seq![s],
        }
    }
}

#[via_fn]
proof fn spec_lines_decreases(s: Seq<char>) {
    lemma_first_match(s, seq!['\n']);
}

pub fn lines_of(s: &str) -> (r: Vec<String>)
    ensures
        seq_views(r@) == spec_lines(s@),
{
    let mut out: Vec<String> = Vec::new();
    let mut rest: String = String::from_str(s);
    let nl = "\n";
    proof {
        reveal_strlit("\n");
        assert(nl@ =~= seq!['\n']);
    }
    loop
        invariant
            nl@ == seq!['\n'],
            spec_lines(s@) =~= seq_views(out@) + spec_lines(rest@),
        decreases rest@.len(),
    {
        let ghost prev = out@;
        let ghost rest_view = rest@;
        if rest.as_str().unicode_len() == 0 {
            proof {
                assert(seq_views(out@) + spec_lines(rest@) =~= seq_views(out@));
            }
            return out;
        }
        match find_sub(rest.as_str(), nl) {
            Some(i) => {
                proof {
                    lemma_first_match(rest@, nl@);
                }
                let rlen = rest.unicode_len();
                let mut end = i;
                if end > 0 && rest.as_str().get_char(end - 1) == '\r' {
                    end = end - 1;
                }
                let piece = rest.as_str().substring_char(0, end);
                let next = String::from_str(rest.as_str().substring_char(i + 1, rlen));
                out.push(String::from_str(piece));
                rest = next;
                proof {
                    assert(piece@ =~= strip_cr(rest_view.subrange(0, i as int)));
                    assert(seq_views(out@) =~= seq_views(prev).push(piece@));
                }
            },
            None => {
                out.push(rest);
                proof {
                    assert(spec_lines(rest_view) =~= seq![rest_view]);
                    assert(seq_views(out@) =~= seq_views(prev).push(rest_view));
                }
                return out;
            },
        }
    }
}

/// Longest whitespace-free margin removed from both ends.
pub open spec fn trim_start(s: Seq<char>) -> Seq<char>
    decreases s.len(),
{
    if s.len() > 0 && is_ws(s[0]) {
        trim_start(s.drop_first())
    } else {
        s
    }
}

pub open spec fn trim_end(s: Seq<char>) -> Seq<char>
    decreases s.len(),
{
    if s.len() > 0 && is_ws(s[s.len() - 1]) {
        trim_end(s.drop_last())
    } else {
        s
    }
}

pub open spec fn spec_trim(s: Seq<char>) -> Seq<char> {
    trim_end(trim_start(s))
}

pub fn trim_str(s: &str) -> (r: &str)
    ensures
        r@ == spec_trim(s@),
{
    let slen = s.unicode_len();
    let mut a: usize = 0;
    proof {
        assert(s@.subrange(0, slen as int) =~= s@);
    }
    while a < slen && ws_char(s.get_char(a))
        invariant
            slen == s@.len(),
            a <= slen,
            trim_start(s@) == trim_start(s@.subrange(a as int, slen as int)),
        decreases slen - a,
    {
        proof {
            assert(s@.subrange(a as int, slen as int).drop_first() =~= s@.subrange(
                a + 1,
                slen as int,
            ));
        }
        a += 1;
    }
    proof {
        assert(trim_start(s@) =~= s@.subrange(a as int, slen as int));
    }
    let mut b: usize = slen;
    while b > a && ws_char(s.get_char(b - 1))
        invariant
            slen == s@.len(),
            a <= b <= slen,
            trim_start(s@) == s@.subrange(a as int, slen as int),
            trim_end(trim_start(s@)) == trim_end(s@.subrange(a as int, b as int)),
        decreases b,
    {
        proof {
            let cur = s@.subrange(a as int, b as int);
            assert(cur[b - a - 1] == s@[b - 1]);
            assert(cur.drop_last() =~= s@.subrange(a as int, b - 1));
        }
        b -= 1;
    }
    proof {
        let cur = s@.subrange(a as int, b as int);
        if b > a {
            assert(cur[b - a - 1] == s@[b - 1]);
        }
        assert(trim_end(cur) =~= cur);
    }
    s.substring_char(a, b)
}

/// Uppercasing of ASCII letters with `-` mapped to `_`, as environment
/// variable names are formed from package names.
pub open spec fn env_char(c: char) -> char {
    if c == '-' {
        '_'
    } else if 'a' <= c && c <= 'z' {
        (((c as u32) - 32) as char)
    } else {
        c
    }
}

pub fn to_env_char(c: char) -> (r: char)
    ensures
        r == env_char(c),
{
    if c == '-' {
        '_'
    } else if 'a' <= c && c <= 'z' {
        (((c as u8) - 32) as char)
    } else {
        c
    }
}

/// `a` is at most `b` in character-by-character lexicographic order.
pub open spec fn lex_le(a: Seq<char>, b: Seq<char>) -> bool
    decreases a.len(),
{
    if a.len() == 0 {
        true
    } else if b.len() == 0 {
        false
    } else if a[0] != b[0] {
        a[0] < b[0]
    } else {
        lex_le(a.drop_first(), b.drop_first())
    }
}

pub fn str_le(a: &str, b: &str) -> (r: bool)
    ensures
        r == lex_le(a@, b@),
{
    let alen = a.unicode_len();
    let blen = b.unicode_len();
    let mut i: usize = 0;
    proof {
        assert(a@.subrange(0, alen as int) =~= a@);
        assert(b@.subrange(0, blen as int) =~= b@);
    }
    loop
        invariant
            alen == a@.len(),
            blen == b@.len(),
            i <= alen,
            i <= blen,
            lex_le(a@, b@) == lex_le(
                a@.subrange(i as int, alen as int),
                b@.subrange(i as int, blen as int),
            ),
            forall|j: int| 0 <= j < i ==> a@[j] == b@[j],
        decreases alen - i,
    {
        let ghost ar = a@.subrange(i as int, alen as int);
        let ghost br = b@.subrange(i as int, blen as int);
        if i >= alen {
            assert(ar.len() == 0);
            return true;
        }
        if i >= blen {
            assert(br.len() == 0 && ar.len() > 0);
            return false;
        }
        let ca = a.get_char(i);
        let cb = b.get_char(i);
        assert(ar[0] == ca && br[0] == cb);
        if ca != cb {
            return ca < cb;
        }
        proof {
            assert(ar.drop_first() =~= a@.subrange(i + 1, alen as int));
            assert(br.drop_first() =~= b@.subrange(i + 1, blen as int));
        }
        i += 1;
    }
}

/// An element-for-element copy of a string vector.
pub fn clone_string_vec(v: &Vec<String>) -> (r: Vec<String>)
    ensures
        r@ == v@,
{
    let n = v.len();
    let mut out: Vec<String> = Vec::new();
    let mut i: usize = 0;
    while i < n
        invariant
            n == v@.len(),
            i <= n,
            out@ =~= v@.take(i as int),
        decreases n - i,
    {
        out.push(v[i].clone());
        proof {
            assert(out@ =~= v@.take(i + 1));
        }
        i += 1;
    }
    proof {
        assert(v@.take(n as int) =~= v@);
    }
    out
}

/// Whether the character occurs in the string.
pub fn str_contains_char(s: &str, c: char) -> (r: bool)
    ensures
        r == s@.contains(c),
{
    let n = s.unicode_len();
    let mut i: usize = 0;
    while i < n
        invariant
            n == s@.len(),
            i <= n,
            forall|j: int| 0 <= j < i ==> s@[j] != c,
        decreases n - i,
    {
        if s.get_char(i) == c {
            return true;
        }
        i += 1;
    }
    false
}

/// Whether a string vector holds `x`, by character comparison.
pub fn vec_contains_str(v: &Vec<String>, x: &str) -> (r: bool)
    ensures
        r == seq_views(v@).contains(x@),
{
    let n = v.len();
    let mut i: usize = 0;
    while i < n
        invariant
            n == v@.len(),
            i <= n,
            forall|j: int| 0 <= j < i ==> seq_views(v@)[j] != x@,
        decreases n - i,
    {
        if str_eq(v[i].as_str(), x) {
            assert(seq_views(v@)[i as int] == x@);
            return true;
        }
        assert(seq_views(v@)[i as int] != x@);
        i += 1;
    }
    false
}

/// Element-wise equality of two string vectors.
pub fn vec_str_eq(a: &Vec<String>, b: &Vec<String>) -> (r: bool)
    ensures
        r == (seq_views(a@) == seq_views(b@)),
{
    let n = a.len();
    proof {
        assert(seq_views(a@).len() == a@.len());
        assert(seq_views(b@).len() == b@.len());
    }
    if n != b.len() {
        return false;
    }
    let mut i: usize = 0;
    while i < n
        invariant
            n == a@.len(),
            n == b@.len(),
            i <= n,
            forall|j: int| 0 <= j < i ==> seq_views(a@)[j] == seq_views(b@)[j],
        decreases n - i,
    {
        if !str_eq(a[i].as_str(), b[i].as_str()) {
            assert(seq_views(a@)[i as int] != seq_views(b@)[i as int]);
            return false;
        }
        i += 1;
    }
    proof {
        assert(seq_views(a@) =~= seq_views(b@));
    }
    true
}

/// Views and `Seq::push` commute.
pub proof fn lemma_seq_views_push(v: Seq<String>, x: String)
    ensures
        seq_views(v.push(x)) == seq_views(v).push(x@),
{
    assert(seq_views(v.push(x)) =~= seq_views(v).push(x@));
}

/// Views and `Seq::remove` commute.
pub proof fn lemma_seq_views_remove(v: Seq<String>, i: int)
    requires
        0 <= i < v.len(),
    ensures
        seq_views(v.remove(i)) == seq_views(v).remove(i),
{
    assert(seq_views(v.remove(i)) =~= seq_views(v).remove(i));
}

/// The last index at which the character occurs, if any.
pub open spec fn last_index_of_char(s: Seq<char>, c: char) -> Option<int>
    decreases s.len(),
{
    if s.len() == 0 {
        None
    } else if s[s.len() - 1] == c {
        Some(s.len() - 1)
    } else {
        last_index_of_char(s.drop_last(), c)
    }
}

pub fn rfind_char(s: &str, c: char) -> (r: Option<usize>)
    ensures
        match r {
            Some(i) => last_index_of_char(s@, c) == Some(i as int),
            None => last_index_of_char(s@, c) is None,
        },
{
    let n = s.unicode_len();
    let mut i: usize = n;
    proof {
        assert(s@.take(n as int) =~= s@);
    }
    while i > 0
        invariant
            n == s@.len(),
            i <= n,
            last_index_of_char(s@, c) == last_index_of_char(s@.take(i as int), c),
        decreases i,
    {
        proof {
            let cur = s@.take(i as int);
            assert(cur[i - 1] == s@[i - 1]);
            assert(cur.drop_last() =~= s@.take(i - 1));
        }
        if s.get_char(i - 1) == c {
            return Some(i - 1);
        }
        i -= 1;
    }
    proof {
        assert(s@.take(0) =~= Seq::<char>::empty());
    }
    None
}

/// The portion of a file name before its last `.`, the whole name when there
/// is no `.` or when the only `.` leads the name.
pub open spec fn spec_file_stem(s: Seq<char>) -> Seq<char> {
    match last_index_of_char(s, '.') {
        Some(i) => if i == 0 {
            s
        } else {
            s.subrange(0, i)
        },
        None => s,
    }
}

pub fn file_stem_of(s: &str) -> (r: String)
    ensures
        r@ == spec_file_stem(s@),
{
    match rfind_char(s, '.') {
        Some(i) => {
            if i == 0 {
                String::from_str(s)
            } else {
                proof {
                    lemma_last_index_bound(s@, '.');
                }
                String::from_str(s.substring_char(0, i))
            }
        },
        None => String::from_str(s),
    }
}

/// The portion of a path after its last `/`, the whole path when there is no
/// `/`.
pub open spec fn spec_file_name(s: Seq<char>) -> Seq<char> {
    match last_index_of_char(s, '/') {
        Some(i) => s.subrange(i + 1, s.len() as int),
        None => s,
    }
}

pub fn file_name_of(s: &str) -> (r: String)
    ensures
        r@ == spec_file_name(s@),
{
    let n = s.unicode_len();
    match rfind_char(s, '/') {
        Some(i) => {
            proof {
                lemma_last_index_bound(s@, '/');
            }
            String::from_str(s.substring_char(i + 1, n))
        },
        None => String::from_str(s),
    }
}

pub proof fn lemma_last_index_bound(s: Seq<char>, c: char)
    ensures
        match last_index_of_char(s, c) {
            Some(i) => 0 <= i < s.len() && s[i] == c,
            None => true,
        },
    decreases s.len(),
{
    if s.len() > 0 && s[s.len() - 1] != c {
        lemma_last_index_bound(s.drop_last(), c);
        match last_index_of_char(s.drop_last(), c) {
            Some(i) => {
                assert(s.drop_last()[i] == s[i]);
            },
            None => {},
        }
    }
}

/// The concatenation of two string slices.
pub fn concat2(a: &str, b: &str) -> (r: String)
    ensures
        r@ == a@ + b@,
{
    let s = String::from_str(a);
    s.concat(b)
}

/// Appends `b` to `a`.
pub fn append_str(a: &mut String, b: &str)
    ensures
        final(a)@ == old(a)@ + b@,
{
    a.append(b);
}

/// `a` and `b` joined with a single separating slash.
pub fn join_path(a: &str, b: &str) -> (r: String)
    ensures
        r@ == a@.push('/') + b@,
{
    let mut s = String::from_str(a);
    push_char(&mut s, '/');
    s.concat(b)
}

} // verus!
