//! String helpers shared by the expression lexer and the rule table parser:
//! whitespace classification, trimming, prefix tests, delimiter splitting and
//! decimal rendering, each tied to a spec-level model over `Seq<char>`.

use vstd::prelude::*;

verus! {

/// The ASCII whitespace characters, as `char::is_ascii_whitespace` counts them.
pub open spec fn is_ws_char(c: char) -> bool {
    c == ' ' || c == '\t' || c == '\n' || c == '\u{000C}' || c == '\r'
}

pub fn is_ws(c: char) -> (r: bool)
    ensures
        r == is_ws_char(c),
{
    c == ' ' || c == '\t' || c == '\n' || c == '\u{000C}' || c == '\r'
}

/// Leading whitespace removed.
pub open spec fn trim_start_spec(s: Seq<char>) -> Seq<char>
    decreases s.len(),
{
    if s.len() == 0 || !is_ws_char(s[0]) {
        s
    } else {
        trim_start_spec(s.drop_first())
    }
}

/// Trailing whitespace removed.
pub open spec fn trim_end_spec(s: Seq<char>) -> Seq<char>
    decreases s.len(),
{
    if s.len() == 0 || !is_ws_char(s[s.len() - 1]) {
        s
    } else {
        trim_end_spec(s.drop_last())
    }
}

/// Leading and trailing whitespace removed.
pub open spec fn trim_spec(s: Seq<char>) -> Seq<char> {
    trim_end_spec(trim_start_spec(s))
}

proof fn lemma_trim_start_skip(s: Seq<char>, k: int)
    requires
        0 <= k <= s.len(),
        forall|i: int| 0 <= i < k ==> is_ws_char(s[i]),
        k == s.len() || !is_ws_char(s[k]),
    ensures
        trim_start_spec(s) == s.skip(k),
    decreases k,
{
    if k == 0 {
        assert(s.skip(0) =~= s);
    } else {
        lemma_trim_start_skip(s.drop_first(), k - 1);
        assert(s.drop_first().skip(k - 1) =~= s.skip(k));
    }
}

proof fn lemma_trim_end_take(s: Seq<char>, m: int)
    requires
        0 <= m <= s.len(),
        forall|i: int| m <= i < s.len() ==> is_ws_char(s[i]),
        m == 0 || !is_ws_char(s[m - 1]),
    ensures
        trim_end_spec(s) == s.take(m),
    decreases s.len(),
{
    if m == s.len() {
        if s.len() == 0 {
            assert(s.take(0) =~= s);
        } else {
            assert(s.take(m) =~= s);
        }
    } else {
        lemma_trim_end_take(s.drop_last(), m);
        assert(s.drop_last().take(m) =~= s.take(m));
    }
}

/// Trimming keeps a subrange of the given text: both boundaries move inward
/// past whitespace only.
proof fn lemma_trim_subrange(s: Seq<char>, start: int, end: int)
    requires
        0 <= start <= end <= s.len(),
        forall|i: int| 0 <= i < start ==> is_ws_char(s[i]),
        forall|i: int| end <= i < s.len() ==> is_ws_char(s[i]),
        start == s.len() || !is_ws_char(s[start]),
        start == end || !is_ws_char(s[end - 1]),
    ensures
        trim_spec(s) == s.subrange(start, end),
    decreases 0int,
{
    if start == end {
        lemma_trim_start_skip(s, start);
        lemma_trim_end_take(s.skip(start), 0);
        assert(s.skip(start).take(0) =~= s.subrange(start, end));
    } else {
        lemma_trim_start_skip(s, start);
        lemma_trim_end_take(s.skip(start), end - start);
        assert(s.skip(start).take(end - start) =~= s.subrange(start, end));
    }
}

/// A copy of `s` with surrounding whitespace removed.
pub fn trim<'a>(s: &'a str) -> (r: &'a str)
    ensures
        r@ == trim_spec(s@),
{
    let len = s.unicode_len();
    let mut start: usize = 0;
    while start < len && is_ws(s.get_char(start))
        invariant
            start <= len,
            len == s@.len(),
            forall|i: int| 0 <= i < start ==> is_ws_char(s@[i]),
        decreases len - start,
    {
        start = start + 1;
    }
    let mut end: usize = len;
    while end > start && is_ws(s.get_char(end - 1))
        invariant
            start <= end <= len,
            len == s@.len(),
            forall|i: int| end <= i < len ==> is_ws_char(s@[i]),
        decreases end,
    {
        end = end - 1;
    }
    proof {
        lemma_trim_subrange(s@, start as int, end as int);
    }
    s.substring_char(start, end)
}

/// `p` is an initial segment of `s`.
pub open spec fn is_prefix_of(p: Seq<char>, s: Seq<char>) -> bool {
    p.len() <= s.len() && s.subrange(0, p.len() as int) == p
}

/// Whether the characters of `d` occur in `s` at position `i`.
pub open spec fn matches_at(s: Seq<char>, d: Seq<char>, i: int) -> bool {
    0 <= i && i + d.len() <= s.len() && s.subrange(i, i + d.len()) == d
}

/// Compares `s[i..i + d.len()]` with `d`.
pub fn slice_matches(s: &str, i: usize, d: &str) -> (r: bool)
    requires
        i + d@.len() <= s@.len(),
    ensures
        r == matches_at(s@, d@, i as int),
{
    let dlen = d.unicode_len();
    let slen = s.unicode_len();
    let mut j: usize = 0;
    while j < dlen
        invariant
            j <= dlen,
            dlen == d@.len(),
            slen == s@.len(),
            i + dlen <= s@.len(),
            forall|q: int| 0 <= q < j ==> s@[i + q] == d@[q],
        decreases dlen - j,
    {
        if s.get_char(i + j) != d.get_char(j) {
            assert(s@.subrange(i as int, i + dlen) != d@) by {
                assert(s@.subrange(i as int, i + dlen)[j as int] != d@[j as int]);
            }
            return false;
        }
        j = j + 1;
    }
    proof {
        assert(s@.subrange(i as int, i + dlen) =~= d@);
    }
    true
}

pub fn starts_with(s: &str, p: &str) -> (r: bool)
    ensures
        r == is_prefix_of(p@, s@),
{
    let plen = p.unicode_len();
    if plen > s.unicode_len() {
        return false;
    }
    slice_matches(s, 0, p)
}

/// Equality of the character sequences of two string slices.
pub fn str_eq(a: &str, b: &str) -> (r: bool)
    ensures
        r == (a@ == b@),
{
    let alen = a.unicode_len();
    if alen != b.unicode_len() {
        return false;
    }
    let m = slice_matches(a, 0, b);
    proof {
        if a@.subrange(0, alen as int) == b@ {
            assert(a@.subrange(0, alen as int) =~= a@);
        }
        if a@ == b@ {
            assert(a@.subrange(0, alen as int) =~= b@);
        }
    }
    m
}

/// Splits `s` at each leftmost, non-overlapping occurrence of `d`, scanning
/// from position `i` with the current piece starting at `start`.
pub open spec fn split_from(s: Seq<char>, d: Seq<char>, i: int, start: int) -> Seq<Seq<char>>
    decreases s.len() - i,
{
    if d.len() == 0 || !(0 <= i && i <= s.len()) {
        seq![]
    } else if i + d.len() > s.len() {
        seq![s.subrange(start, s.len() as int)]
    } else if matches_at(s, d, i) {
        seq![s.subrange(start, i)] + split_from(s, d, i + d.len(), i + d.len())
    } else {
        split_from(s, d, i + 1, start)
    }
}

pub open spec fn split_spec(s: Seq<char>, d: Seq<char>) -> Seq<Seq<char>> {
    split_from(s, d, 0, 0)
}

/// The pieces of `s` between occurrences of the delimiter `d`, each trimmed.
/// A space is first added on both ends so that a delimiter with surrounding
/// spaces also matches at the very start or end of the line.
pub open spec fn tokenize_spec(s: Seq<char>, d: Seq<char>) -> Seq<Seq<char>> {
    split_spec(seq![' '] + s + seq![' '], d).map_values(|p: Seq<char>| trim_spec(p))
}

/// A copy of `s` with one space added on each side.
fn pad_spaces(s: &str) -> (t: String)
    ensures
        t@ == seq![' '] + s@ + seq![' '],
{
    let mut t = String::from_str(" ");
    t.append(s);
    t.append(" ");
    proof {
        reveal_strlit(" ");
        assert(t@ =~= seq![' '] + s@ + seq![' ']);
    }
    t
}

/// Splits at a delimiter and trims every piece, as `tokenize_spec` says.
pub fn tokenize_with_delimiter(s: &str, d: &str) -> (parts: Vec<String>)
    requires
        d@.len() >= 1,
    ensures
        parts@.len() == tokenize_spec(s@, d@).len(),
        forall|q: int|
            0 <= q < parts@.len() ==> parts@[q]@ == tokenize_spec(s@, d@)[q],
{
    let t = pad_spaces(s);
    let tlen = t.as_str().unicode_len();
    let dlen = d.unicode_len();
    let mut parts: Vec<String> = Vec::new();
    let mut i: usize = 0;
    let mut start: usize = 0;
    let ghost mut raw: Seq<Seq<char>> = seq![];
    while dlen <= tlen && i <= tlen - dlen
        invariant
            1 <= dlen,
            dlen == d@.len(),
            tlen == t@.len(),
            start <= i,
            i <= tlen,
            split_spec(t@, d@) == raw + split_from(t@, d@, i as int, start as int),
            parts@.len() == raw.len(),
            forall|q: int| 0 <= q < raw.len() ==> parts@[q]@ == trim_spec(raw[q]),
        decreases tlen - i,
    {
        if slice_matches(t.as_str(), i, d) {
            let piece = t.as_str().substring_char(start, i);
            let trimmed = trim(piece);
            parts.push(trimmed.to_owned());
            proof {
                raw = raw + seq![t@.subrange(start as int, i as int)];
                assert(split_spec(t@, d@) == raw + split_from(
                    t@, d@, i + dlen, i + dlen,
                ));
            }
            i = i + dlen;
            start = i;
        } else {
            i = i + 1;
        }
    }
    let piece = t.as_str().substring_char(start, tlen);
    let trimmed = trim(piece);
    parts.push(trimmed.to_owned());
    proof {
        raw = raw + seq![t@.subrange(start as int, tlen as int)];
        assert(split_spec(t@, d@) == raw);
        assert(tokenize_spec(s@, d@) =~= raw.map_values(|p: Seq<char>| trim_spec(p)));
        assert forall|q: int| 0 <= q < parts@.len()
            implies parts@[q]@ == tokenize_spec(s@, d@)[q] by {
            assert(tokenize_spec(s@, d@)[q] == trim_spec(raw[q]));
        }
    }
    parts
}

/// Splits `s` at whitespace runs: the maximal whitespace-free pieces, scanning
/// from position `i`, where `cur` carries the start of an unfinished piece.
pub open spec fn ws_split_from(s: Seq<char>, i: int, cur: Option<int>) -> Seq<Seq<char>>
    decreases s.len() - i,
{
    if !(0 <= i && i < s.len()) {
        match cur {
            Option::None => seq![],
            Option::Some(st) => seq![s.subrange(st, s.len() as int)],
        }
    } else if is_ws_char(s[i]) {
        match cur {
            Option::None => ws_split_from(s, i + 1, Option::None),
            Option::Some(st) => seq![s.subrange(st, i)] + ws_split_from(s, i + 1, Option::None),
        }
    } else {
        match cur {
            Option::None => ws_split_from(s, i + 1, Option::Some(i)),
            Option::Some(st) => ws_split_from(s, i + 1, cur),
        }
    }
}

pub open spec fn ws_split_spec(s: Seq<char>) -> Seq<Seq<char>> {
    ws_split_from(s, 0, Option::None)
}

/// Splits at whitespace, as `ws_split_spec` says.
pub fn tokenize_at_whitespace(s: &str) -> (parts: Vec<String>)
    ensures
        parts@.len() == ws_split_spec(s@).len(),
        forall|q: int|
            0 <= q < parts@.len() ==> parts@[q]@ == ws_split_spec(s@)[q],
{
    let len = s.unicode_len();
    let mut parts: Vec<String> = Vec::new();
    let mut in_tok: bool = false;
    let mut tok_start: usize = 0;
    let mut i: usize = 0;
    while i < len
        invariant
            i <= len,
            len == s@.len(),
            in_tok ==> tok_start <= i,
            ws_split_spec(s@) == parts@.map_values(|p: String| p@) + ws_split_from(
                s@, i as int, if in_tok { Option::Some(tok_start as int) } else { Option::None },
            ),
        decreases len - i,
    {
        let c = s.get_char(i);
        if is_ws(c) {
            if in_tok {
                let piece = s.substring_char(tok_start, i);
                parts.push(piece.to_owned());
                proof {
                    assert(parts@.map_values(|p: String| p@) =~= old_seq_push(
                        parts@, s@.subrange(tok_start as int, i as int),
                    ));
                }
                in_tok = false;
            }
        } else {
            if !in_tok {
                in_tok = true;
                tok_start = i;
            }
        }
        i = i + 1;
    }
    if in_tok {
        let piece = s.substring_char(tok_start, len);
        parts.push(piece.to_owned());
        proof {
            assert(parts@.map_values(|p: String| p@) =~= old_seq_push(
                parts@, s@.subrange(tok_start as int, len as int),
            ));
        }
    }
    parts
}

/// The views of a string sequence, after appending one more piece.
spec fn old_seq_push(parts: Seq<String>, piece: Seq<char>) -> Seq<Seq<char>> {
    parts.take(parts.len() - 1).map_values(|p: String| p@) + seq![piece]
}

/// The first position at or after `i` where `names` holds `w`.
pub open spec fn find_from(names: Seq<Seq<char>>, w: Seq<char>, i: int) -> Option<int>
    decreases names.len() - i,
{
    if i < 0 || i >= names.len() {
        Option::None
    } else if names[i] == w {
        Option::Some(i)
    } else {
        find_from(names, w, i + 1)
    }
}

/// The first position where `names` holds `w`.
pub open spec fn find_name(names: Seq<Seq<char>>, w: Seq<char>) -> Option<int> {
    find_from(names, w, 0)
}

/// A found position lies in range and holds `w`; earlier positions do not.
pub proof fn lemma_find_from_bounds(names: Seq<Seq<char>>, w: Seq<char>, i: int)
    requires
        0 <= i,
        find_from(names, w, i) is Some,
    ensures
        i <= find_from(names, w, i)->Some_0 < names.len(),
        names[find_from(names, w, i)->Some_0] == w,
        forall|q: int| i <= q < find_from(names, w, i)->Some_0 ==> names[q] != w,
    decreases names.len() - i,
{
    if i < names.len() && names[i] != w {
        lemma_find_from_bounds(names, w, i + 1);
    }
}

/// The views of a list of strings.
pub open spec fn views_of(names: Seq<String>) -> Seq<Seq<char>> {
    names.map_values(|s: String| s@)
}

/// Looks `w` up in a list of names, as `find_name` says.
pub fn find_in_names(names: &Vec<String>, w: &str) -> (r: Option<usize>)
    ensures
        match r {
            Option::Some(i) => find_name(views_of(names@), w@) == Option::Some(i as int),
            Option::None => find_name(views_of(names@), w@) is None,
        },
{
    let mut i: usize = 0;
    while i < names.len()
        invariant
            i <= names@.len(),
            find_name(views_of(names@), w@) == find_from(views_of(names@), w@, i as int),
        decreases names@.len() - i,
    {
        if str_eq(names[i].as_str(), w) {
            return Some(i);
        }
        i = i + 1;
    }
    None
}

/// The first position whose pair's name is `w`, among named id pairs.
pub open spec fn find_pair_from(names: Seq<(Seq<char>, (usize, usize))>, w: Seq<char>, i: int)
    -> Option<int>
    decreases names.len() - i,
{
    if i < 0 || i >= names.len() {
        Option::None
    } else if names[i].0 == w {
        Option::Some(i)
    } else {
        find_pair_from(names, w, i + 1)
    }
}

pub open spec fn find_pair(names: Seq<(Seq<char>, (usize, usize))>, w: Seq<char>) -> Option<int> {
    find_pair_from(names, w, 0)
}

/// A failed lookup means no position holds `w`.
pub proof fn lemma_find_from_none(names: Seq<Seq<char>>, w: Seq<char>, i: int)
    requires
        0 <= i,
        find_from(names, w, i) is None,
    ensures
        forall|q: int| i <= q < names.len() ==> names[q] != w,
    decreases names.len() - i,
{
    if i < names.len() {
        lemma_find_from_none(names, w, i + 1);
    }
}

/// A found pair position lies in range and holds `w`; earlier ones do not.
pub proof fn lemma_find_pair_bounds(names: Seq<(Seq<char>, (usize, usize))>, w: Seq<char>, i: int)
    requires
        0 <= i,
        find_pair_from(names, w, i) is Some,
    ensures
        i <= find_pair_from(names, w, i)->Some_0 < names.len(),
        names[find_pair_from(names, w, i)->Some_0].0 == w,
        forall|q: int| i <= q < find_pair_from(names, w, i)->Some_0 ==> names[q].0 != w,
    decreases names.len() - i,
{
    if i < names.len() && names[i].0 != w {
        lemma_find_pair_bounds(names, w, i + 1);
    }
}

/// The views of a list of named id pairs.
pub open spec fn pair_views_of(names: Seq<(String, (usize, usize))>) -> Seq<(Seq<char>, (usize, usize))> {
    names.map_values(|p: (String, (usize, usize))| (p.0@, p.1))
}

/// Looks `w` up among named id pairs, as `find_pair` says.
pub fn find_in_pairs(names: &Vec<(String, (usize, usize))>, w: &str) -> (r: Option<usize>)
    ensures
        match r {
            Option::Some(i) => find_pair(pair_views_of(names@), w@) == Option::Some(i as int),
            Option::None => find_pair(pair_views_of(names@), w@) is None,
        },
{
    let mut i: usize = 0;
    while i < names.len()
        invariant
            i <= names@.len(),
            find_pair(pair_views_of(names@), w@) == find_pair_from(
                pair_views_of(names@), w@, i as int,
            ),
        decreases names@.len() - i,
    {
        if str_eq(names[i].0.as_str(), w) {
            return Some(i);
        }
        i = i + 1;
    }
    None
}

/// The decimal digit `d` as a character.
pub open spec fn digit_char(d: int) -> char {
    if d == 0 { '0' } else if d == 1 { '1' } else if d == 2 { '2' } else if d == 3 { '3' }
    else if d == 4 { '4' } else if d == 5 { '5' } else if d == 6 { '6' } else if d == 7 { '7' }
    else if d == 8 { '8' } else { '9' }
}

/// The decimal rendering of a non-negative number, most significant digit first.
pub open spec fn dec_spec(n: int) -> Seq<char>
    decreases n,
{
    if n < 10 {
        seq![digit_char(n)]
    } else {
        dec_spec(n / 10).push(digit_char(n % 10))
    }
}

/// Appends one decimal digit.
fn push_digit(s: &mut String, d: usize)
    requires
        d < 10,
    ensures
        final(s)@ == old(s)@.push(digit_char(d as int)),
{
    match d {
        0 => s.append("0"),
        1 => s.append("1"),
        2 => s.append("2"),
        3 => s.append("3"),
        4 => s.append("4"),
        5 => s.append("5"),
        6 => s.append("6"),
        7 => s.append("7"),
        8 => s.append("8"),
        _ => s.append("9"),
    }
    proof {
        reveal_strlit("0");
        reveal_strlit("1");
        reveal_strlit("2");
        reveal_strlit("3");
        reveal_strlit("4");
        reveal_strlit("5");
        reveal_strlit("6");
        reveal_strlit("7");
        reveal_strlit("8");
        reveal_strlit("9");
        assert(s@ =~= old(s)@.push(digit_char(d as int)));
    }
}

/// Appends the decimal rendering of `n`.
pub fn append_decimal(s: &mut String, n: usize)
    ensures
        final(s)@ == old(s)@ + dec_spec(n as int),
    decreases n,
{
    if n >= 10 {
        append_decimal(s, n / 10);
        push_digit(s, n % 10);
        proof {
            assert(s@ =~= old(s)@ + dec_spec(n as int));
        }
    } else {
        push_digit(s, n);
        proof {
            assert(s@ =~= old(s)@ + dec_spec(n as int));
        }
    }
}

/// The decimal rendering of `n` as a fresh string.
pub fn decimal_string(n: usize) -> (r: String)
    ensures
        r@ == dec_spec(n as int),
{
    let mut s = String::new();
    append_decimal(&mut s, n);
    proof {
        assert(s@ =~= dec_spec(n as int));
    }
    s
}

} // verus!
