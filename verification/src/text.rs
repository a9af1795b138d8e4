use vstd::prelude::*;

verus! {

broadcast use vstd::string::group_string_axioms;

/// The characters of a string.
pub fn chars_of(s: &str) -> (r: Vec<char>)
    ensures
        r@ == s@,
{
    let mut v: Vec<char> = Vec::new();
    for c in it: s.chars()
        invariant
            v@ == it.seq().take(it.index() as int),
    {
        v.push(c);
    }
    v
}

/// Appends a character to a string (std's `String::push`).
#[verifier::external_body]
pub(crate) fn push_char(s: &mut String, c: char)
    ensures
        final(s)@ == old(s)@.push(c),
{
    s.push(c);
}

/// The string made of the characters `v[from..to]`.
pub fn string_of(v: &Vec<char>, from: usize, to: usize) -> (r: String)
    requires
        from <= to <= v@.len(),
    ensures
        r@ == v@.subrange(from as int, to as int),
{
    let mut s = String::new();
    let mut i = from;
    while i < to
        invariant
            from <= i <= to <= v@.len(),
            s@ == v@.subrange(from as int, i as int),
        decreases to - i,
    {
        push_char(&mut s, v[i]);
        proof {
            assert(v@.subrange(from as int, i + 1) =~= v@.subrange(from as int, i as int).push(v@[i as int]));
        }
        i = i + 1;
    }
    s
}

/// The decimal digit `d`.
pub open spec fn digit_char(d: nat) -> char {
    seq!['0', '1', '2', '3', '4', '5', '6', '7', '8', '9'][d as int]
}

/// Decimal notation of a natural number, without leading zeros.
pub open spec fn dec_text(n: nat) -> Seq<char>
    decreases n,
{
    if n < 10 {
        seq![digit_char(n)]
    } else {
        dec_text(n / 10).push(digit_char(n % 10))
    }
}

fn digit(d: u64) -> (r: char)
    requires
        d < 10,
    ensures
        r == digit_char(d as nat),
{
    if d == 0 { '0' } else if d == 1 { '1' } else if d == 2 { '2' } else if d == 3 { '3' }
    else if d == 4 { '4' } else if d == 5 { '5' } else if d == 6 { '6' } else if d == 7 { '7' }
    else if d == 8 { '8' } else { '9' }
}

/// Decimal notation of `n`, as `n.to_string()` gives it.
pub fn decimal(n: u64) -> (r: String)
    ensures
        r@ == dec_text(n as nat),
    decreases n,
{
    if n < 10 {
        let mut s = String::new();
        push_char(&mut s, digit(n));
        proof {
            assert(s@ =~= seq![digit_char(n as nat)]);
        }
        s
    } else {
        let mut s = decimal(n / 10);
        push_char(&mut s, digit(n % 10));
        s
    }
}

/// The characters with the Unicode `White_Space` property, as `char::is_whitespace` tests.
pub open spec fn is_ws(c: char) -> bool {
    ||| ('\u{9}' <= c && c <= '\u{d}')
    ||| c == ' '
    ||| c == '\u{85}'
    ||| c == '\u{a0}'
    ||| c == '\u{1680}'
    ||| ('\u{2000}' <= c && c <= '\u{200a}')
    ||| c == '\u{2028}'
    ||| c == '\u{2029}'
    ||| c == '\u{202f}'
    ||| c == '\u{205f}'
    ||| c == '\u{3000}'
}

/// Whether `c` is whitespace, as `char::is_whitespace` tells.
pub fn is_whitespace(c: char) -> (r: bool)
    ensures
        r == is_ws(c),
{
    ('\u{9}' <= c && c <= '\u{d}') || c == ' ' || c == '\u{85}' || c == '\u{a0}' || c == '\u{1680}'
        || ('\u{2000}' <= c && c <= '\u{200a}') || c == '\u{2028}' || c == '\u{2029}' || c == '\u{202f}'
        || c == '\u{205f}' || c == '\u{3000}'
}

/// `s` without its leading whitespace.
pub open spec fn trim_start(s: Seq<char>) -> Seq<char>
    decreases s.len(),
{
    if s.len() > 0 && is_ws(s[0]) {
        trim_start(s.drop_first())
    } else {
        s
    }
}

/// `s` without its trailing whitespace.
pub open spec fn trim_end(s: Seq<char>) -> Seq<char>
    decreases s.len(),
{
    if s.len() > 0 && is_ws(s.last()) {
        trim_end(s.drop_last())
    } else {
        s
    }
}

/// `s` without leading and trailing whitespace.
pub open spec fn spec_trim(s: Seq<char>) -> Seq<char> {
    trim_end(trim_start(s))
}

proof fn lemma_trim_start_skip(s: Seq<char>, i: int)
    requires
        0 <= i <= s.len(),
        forall|k: int| 0 <= k < i ==> is_ws(#[trigger] s[k]),
    ensures
        trim_start(s) == trim_start(s.skip(i)),
    decreases i,
{
    if i > 0 {
        assert(s.drop_first().skip(i - 1) =~= s.skip(i));
        lemma_trim_start_skip(s.drop_first(), i - 1);
    } else {
        assert(s.skip(0) =~= s);
    }
}

proof fn lemma_trim_end_take(s: Seq<char>, j: int)
    requires
        0 <= j <= s.len(),
        forall|k: int| j <= k < s.len() ==> is_ws(#[trigger] s[k]),
    ensures
        trim_end(s) == trim_end(s.take(j)),
    decreases s.len() - j,
{
    if j < s.len() {
        assert(s.drop_last().take(j) =~= s.take(j));
        lemma_trim_end_take(s.drop_last(), j);
    } else {
        assert(s.take(j) =~= s);
    }
}

/// The bounds `[a, b)` of `v` without leading and trailing whitespace.
fn trim_bounds(v: &Vec<char>, from: usize, to: usize) -> (r: (usize, usize))
    requires
        from <= to <= v@.len(),
    ensures
        from <= r.0 <= r.1 <= to,
        v@.subrange(r.0 as int, r.1 as int) == spec_trim(v@.subrange(from as int, to as int)),
{
    let ghost s = v@.subrange(from as int, to as int);
    let mut a = from;
    while a < to && is_whitespace(v[a])
        invariant
            from <= a <= to <= v@.len(),
            forall|k: int| from <= k < a ==> is_ws(#[trigger] v@[k]),
        decreases to - a,
    {
        a = a + 1;
    }
    proof {
        assert forall|k: int| 0 <= k < a - from implies is_ws(#[trigger] s[k]) by {
            assert(s[k] == v@[from + k]);
        }
        lemma_trim_start_skip(s, a - from);
        let t = s.skip(a - from);
        assert(t =~= v@.subrange(a as int, to as int));
        if a < to {
            assert(!is_ws(t[0]));
        }
        assert(trim_start(t) == t);
    }
    let mut b = to;
    while b > a && is_whitespace(v[b - 1])
        invariant
            from <= a <= b <= to <= v@.len(),
            forall|k: int| b <= k < to ==> is_ws(#[trigger] v@[k]),
        decreases b - a,
    {
        b = b - 1;
    }
    proof {
        let t = v@.subrange(a as int, to as int);
        assert forall|k: int| b - a <= k < t.len() implies is_ws(#[trigger] t[k]) by {
            assert(t[k] == v@[a + k]);
        }
        lemma_trim_end_take(t, b - a);
        let u = t.take(b - a);
        assert(u =~= v@.subrange(a as int, b as int));
        if b > a {
            assert(!is_ws(u.last()));
        }
        assert(trim_end(u) == u);
    }
    (a, b)
}

/// The string `s` without leading and trailing whitespace.
pub fn trim(s: &str) -> (r: String)
    ensures
        r@ == spec_trim(s@),
{
    let v = chars_of(s);
    let (a, b) = trim_bounds(&v, 0, v.len());
    proof {
        assert(v@.subrange(0, v@.len() as int) =~= v@);
    }
    string_of(&v, a, b)
}

/// The length of the run of non-whitespace characters at the start of `s`.
pub open spec fn word_len(s: Seq<char>) -> nat
    decreases s.len(),
{
    if s.len() == 0 || is_ws(s[0]) {
        0
    } else {
        1 + word_len(s.drop_first())
    }
}

/// The maximal runs of non-whitespace characters of `s`, in order.
pub open spec fn words(s: Seq<char>) -> Seq<Seq<char>>
    decreases s.len(),
{
    let t = trim_start(s);
    if t.len() == 0 {
        Seq::empty()
    } else {
        let n = word_len(t);
        if n == 0 || n > t.len() || t.len() > s.len() {
            Seq::empty()
        } else {
            seq![t.take(n as int)] + words(t.skip(n as int))
        }
    }
}

proof fn lemma_trim_start_len(s: Seq<char>)
    ensures
        trim_start(s).len() <= s.len(),
        trim_start(s).len() > 0 ==> !is_ws(trim_start(s)[0]),
        trim_start(s) == s.skip(s.len() - trim_start(s).len()),
    decreases s.len(),
{
    if s.len() > 0 && is_ws(s[0]) {
        lemma_trim_start_len(s.drop_first());
        assert(s.drop_first().skip(s.drop_first().len() - trim_start(s).len()) =~= s.skip(s.len() - trim_start(s).len()));
    } else {
        assert(s.skip(0) =~= s);
    }
}

proof fn lemma_word_len(s: Seq<char>, i: int)
    requires
        0 <= i <= s.len(),
        forall|k: int| 0 <= k < i ==> !is_ws(#[trigger] s[k]),
        i == s.len() || is_ws(s[i]),
    ensures
        word_len(s) == i,
    decreases i,
{
    if i > 0 {
        lemma_word_len(s.drop_first(), i - 1);
    }
}

/// Sequences of strings by their characters.
pub open spec fn views(v: Seq<String>) -> Seq<Seq<char>> {
    v.map_values(|x: String| x@)
}

/// The words of `s` separated by whitespace, each with surrounding whitespace trimmed.
pub fn split_whitespace(s: &str) -> (r: Vec<String>)
    ensures
        views(r@) == words(s@),
{
    let v = chars_of(s);
    let mut out: Vec<String> = Vec::new();
    let mut i: usize = 0;
    proof {
        assert(v@.skip(0) =~= v@);
    }
    while i < v.len()
        invariant
            i <= v@.len(),
            views(out@) + words(v@.skip(i as int)) == words(v@),
        decreases v@.len() - i,
    {
        let ghost rest = v@.skip(i as int);
        let mut a = i;
        while a < v.len() && is_whitespace(v[a])
            invariant
                i <= a <= v@.len(),
                forall|k: int| i <= k < a ==> is_ws(#[trigger] v@[k]),
            decreases v@.len() - a,
        {
            a = a + 1;
        }
        proof {
            assert forall|k: int| 0 <= k < a - i implies is_ws(#[trigger] rest[k]) by {
                assert(rest[k] == v@[i + k]);
            }
            lemma_trim_start_skip(rest, a - i);
            let t = rest.skip(a - i);
            assert(t =~= v@.skip(a as int));
            if a < v.len() {
                assert(!is_ws(t[0]));
            }
            assert(trim_start(t) == t);
        }
        if a == v.len() {
            proof {
                assert(words(rest) =~= Seq::<Seq<char>>::empty());
                assert(v@.skip(a as int) =~= Seq::<char>::empty());
            }
            i = a;
        } else {
            let mut b = a;
            while b < v.len() && !is_whitespace(v[b])
                invariant
                    a <= b <= v@.len(),
                    forall|k: int| a <= k < b ==> !is_ws(#[trigger] v@[k]),
                decreases v@.len() - b,
            {
                b = b + 1;
            }
            let w = string_of(&v, a, b);
            proof {
                let t = v@.skip(a as int);
                assert forall|k: int| 0 <= k < b - a implies !is_ws(#[trigger] t[k]) by {
                    assert(t[k] == v@[a + k]);
                }
                if b < v.len() {
                    assert(t[b - a] == v@[b as int]);
                }
                lemma_word_len(t, b - a);
                lemma_trim_start_len(rest);
                assert(t.take(b - a) =~= v@.subrange(a as int, b as int));
                assert(t.skip(b - a) =~= v@.skip(b as int));
                assert(words(rest) == seq![t.take(b - a)] + words(t.skip(b - a)));
            }
            let ghost old_out = out@;
            out.push(w);
            proof {
                assert(views(out@) =~= views(old_out).push(w@));
                assert(views(out@) + words(v@.skip(b as int)) =~= views(old_out) + (seq![w@] + words(v@.skip(b as int))));
            }
            i = b;
        }
    }
    proof {
        assert(v@.skip(v@.len() as int) =~= Seq::<char>::empty());
        assert(words(Seq::<char>::empty()) =~= Seq::<Seq<char>>::empty());
        assert(views(out@) =~= views(out@) + Seq::<Seq<char>>::empty());
    }
    out
}


/// `sep` occurs in `s` at position `i`.
pub open spec fn matches_at(s: Seq<char>, sep: Seq<char>, i: int) -> bool {
    0 <= i && i + sep.len() <= s.len() && s.subrange(i, i + sep.len()) == sep
}

/// The first position from `i` on where `sep` occurs in `s`.
pub open spec fn first_match_from(s: Seq<char>, sep: Seq<char>, i: nat) -> Option<nat>
    decreases s.len() + 1 - i,
{
    if i + sep.len() > s.len() {
        None
    } else if matches_at(s, sep, i as int) {
        Some(i)
    } else {
        first_match_from(s, sep, i + 1)
    }
}

/// The pieces of `s[start..]` between the occurrences of `sep`, found from
/// left to right without overlap, as `str::split` yields them.
pub open spec fn pieces_from(s: Seq<char>, sep: Seq<char>, start: nat) -> Seq<Seq<char>>
    decreases s.len() - start,
{
    if start > s.len() || sep.len() == 0 {
        seq![s.skip(start as int)]
    } else {
        match first_match_from(s, sep, start) {
            Some(k) => if start <= k && k + sep.len() <= s.len() {
                seq![s.subrange(start as int, k as int)] + pieces_from(s, sep, k + sep.len())
            } else {
                seq![s.skip(start as int)]
            },
            None => seq![s.skip(start as int)],
        }
    }
}

/// The pieces of `s` around the occurrences of `sep`. An empty separator
/// splits before and after every character.
pub open spec fn split_pieces(s: Seq<char>, sep: Seq<char>) -> Seq<Seq<char>> {
    if sep.len() == 0 {
        seq![Seq::<char>::empty()] + s.map_values(|c: char| seq![c]) + seq![Seq::<char>::empty()]
    } else {
        pieces_from(s, sep, 0)
    }
}

/// The texts of `xs` with `sep` between each two of them.
pub open spec fn joined(xs: Seq<Seq<char>>, sep: Seq<char>) -> Seq<char>
    decreases xs.len(),
{
    if xs.len() == 0 {
        Seq::empty()
    } else if xs.len() == 1 {
        xs[0]
    } else {
        xs[0] + sep + joined(xs.drop_first(), sep)
    }
}

proof fn lemma_first_match_none(s: Seq<char>, c: char, i: nat)
    requires
        forall|j: int| i <= j < s.len() ==> s[j] != c,
    ensures
        first_match_from(s, seq![c], i) is None,
    decreases s.len() + 1 - i,
{
    if i + 1 <= s.len() {
        assert(s.subrange(i as int, (i + 1) as int) =~= seq![s[i as int]]);
        assert(!matches_at(s, seq![c], i as int)) by {
            if matches_at(s, seq![c], i as int) {
                assert(s.subrange(i as int, (i + 1) as int)[0] == c);
            }
        }
        lemma_first_match_none(s, c, i + 1);
    }
}

proof fn lemma_first_match_at(s: Seq<char>, c: char, i: nat, k: nat)
    requires
        i <= k < s.len(),
        s[k as int] == c,
        forall|j: int| i <= j < k ==> s[j] != c,
    ensures
        first_match_from(s, seq![c], i) == Some(k),
    decreases k - i,
{
    assert(s.subrange(i as int, (i + 1) as int) =~= seq![s[i as int]]);
    if i < k {
        assert(!matches_at(s, seq![c], i as int)) by {
            if matches_at(s, seq![c], i as int) {
                assert(s.subrange(i as int, (i + 1) as int)[0] == c);
            }
        }
        lemma_first_match_at(s, c, i + 1, k);
    } else {
        assert(matches_at(s, seq![c], i as int));
    }
}

proof fn lemma_pieces_joined(s: Seq<char>, c: char, start: nat, xs: Seq<Seq<char>>)
    requires
        xs.len() > 0,
        start <= s.len(),
        s.skip(start as int) == joined(xs, seq![c]),
        forall|i: int| 0 <= i < xs.len() ==> !(#[trigger] xs[i]).contains(c),
    ensures
        pieces_from(s, seq![c], start) == xs,
    decreases xs.len(),
{
    let sep = seq![c];
    let x0 = xs[0];
    if xs.len() == 1 {
        assert forall|j: int| start <= j < s.len() implies s[j] != c by {
            assert(s.skip(start as int)[j - start] == s[j]);
            assert(x0[j - start] == s[j]);
        }
        lemma_first_match_none(s, c, start);
        assert(pieces_from(s, sep, start) =~= xs);
    } else {
        let rest = xs.drop_first();
        let k = start + x0.len();
        let t = joined(rest, sep);
        assert(s.skip(start as int) == x0 + sep + t);
        assert forall|j: int| start <= j < k implies s[j] != c by {
            assert(s.skip(start as int)[j - start] == s[j]);
            assert((x0 + sep + t)[j - start] == x0[j - start]);
        }
        assert(s.skip(start as int)[k - start] == s[k as int]);
        assert((x0 + sep + t)[k - start] == c);
        lemma_first_match_at(s, c, start, k);
        assert(s.subrange(start as int, k as int) =~= x0) by {
            assert forall|j: int| 0 <= j < x0.len() implies s.subrange(start as int, k as int)[j] == x0[j] by {
                assert(s.skip(start as int)[j] == s[start + j]);
                assert((x0 + sep + t)[j] == x0[j]);
            }
        }
        assert(s.skip((k + 1) as int) =~= t) by {
            assert forall|j: int| 0 <= j < t.len() implies s.skip((k + 1) as int)[j] == t[j] by {
                assert(s.skip(start as int)[x0.len() + 1 + j] == s[k + 1 + j]);
                assert((x0 + sep + t)[x0.len() + 1 + j] == t[j]);
            }
        }
        assert forall|i: int| 0 <= i < rest.len() implies !(#[trigger] rest[i]).contains(c) by {
            assert(rest[i] == xs[i + 1]);
        }
        lemma_pieces_joined(s, c, k + 1, rest);
        assert(pieces_from(s, sep, start) =~= seq![x0] + rest);
        assert(seq![x0] + rest =~= xs);
    }
}

/// Splitting texts joined by a one-character separator that none of them
/// holds gives the texts back.
pub proof fn lemma_split_joined(xs: Seq<Seq<char>>, c: char)
    requires
        xs.len() > 0,
        forall|i: int| 0 <= i < xs.len() ==> !(#[trigger] xs[i]).contains(c),
    ensures
        split_pieces(joined(xs, seq![c]), seq![c]) == xs,
{
    let s = joined(xs, seq![c]);
    assert(s.skip(0) =~= s);
    lemma_pieces_joined(s, c, 0, xs);
}

/// Splitting always yields at least one piece.
pub proof fn lemma_split_pieces_nonempty(s: Seq<char>, sep: Seq<char>)
    ensures
        split_pieces(s, sep).len() > 0,
{
    if sep.len() > 0 {
        assert(pieces_from(s, sep, 0).len() > 0);
    }
}

proof fn lemma_first_match_bounds(s: Seq<char>, sep: Seq<char>, i: nat)
    ensures
        first_match_from(s, sep, i) matches Some(k) ==> i <= k && k + sep.len() <= s.len() && matches_at(s, sep, k as int),
        first_match_from(s, sep, i) matches Some(k) ==> forall|j: int| i <= j < k ==> !matches_at(s, sep, j),
        first_match_from(s, sep, i) is None ==> forall|j: int| i <= j ==> !matches_at(s, sep, j),
    decreases s.len() + 1 - i,
{
    if i + sep.len() <= s.len() && !matches_at(s, sep, i as int) {
        lemma_first_match_bounds(s, sep, i + 1);
    }
}

proof fn lemma_first_match_skip(s: Seq<char>, sep: Seq<char>, i: nat, j: nat)
    requires
        i <= j,
        forall|k: int| i <= k < j ==> !matches_at(s, sep, k),
    ensures
        first_match_from(s, sep, i) == first_match_from(s, sep, j),
    decreases j - i,
{
    if i < j {
        lemma_first_match_skip(s, sep, i + 1, j);
    }
}

/// Whether `v[i..]` starts with `sep`.
fn match_here(v: &Vec<char>, sep: &Vec<char>, i: usize) -> (r: bool)
    requires
        i <= v@.len(),
    ensures
        r == matches_at(v@, sep@, i as int),
{
    if sep.len() > v.len() - i {
        return false;
    }
    let mut k: usize = 0;
    while k < sep.len()
        invariant
            i + sep@.len() <= v@.len(),
            k <= sep@.len(),
            forall|j: int| 0 <= j < k ==> v@[i + j] == sep@[j],
            v@.len() == v.len(),
        decreases sep@.len() - k,
    {
        assert(i + k < v.len());
        if v[i + k] != sep[k] {
            proof {
                assert(v@.subrange(i as int, i + sep@.len())[k as int] != sep@[k as int]);
            }
            return false;
        }
        k = k + 1;
    }
    proof {
        assert(v@.subrange(i as int, i + sep@.len()) =~= sep@);
    }
    true
}

/// Splits `s` around the occurrences of `sep`, as `str::split` does.
pub fn split_on(s: &str, sep: &str) -> (r: Vec<String>)
    ensures
        views(r@) == split_pieces(s@, sep@),
        r@.len() > 0,
{
    proof {
        lemma_split_pieces_nonempty(s@, sep@);
    }
    let v = chars_of(s);
    let p = chars_of(sep);
    let mut out: Vec<String> = Vec::new();
    if p.len() == 0 {
        out.push(String::new());
        let mut i: usize = 0;
        while i < v.len()
            invariant
                i <= v@.len(),
                views(out@) == seq![Seq::<char>::empty()] + v@.take(i as int).map_values(|c: char| seq![c]),
            decreases v@.len() - i,
        {
            let ghost old_out = out@;
            out.push(string_of(&v, i, i + 1));
            proof {
                assert(v@.subrange(i as int, i + 1) =~= seq![v@[i as int]]);
                assert(views(out@) =~= views(old_out).push(seq![v@[i as int]]));
                assert(v@.take(i + 1).map_values(|c: char| seq![c]) =~= v@.take(i as int).map_values(|c: char| seq![c]).push(seq![v@[i as int]]));
            }
            i = i + 1;
        }
        let ghost before = out@;
        out.push(String::new());
        proof {
            assert(v@.take(v@.len() as int) =~= v@);
            assert(views(out@) =~= views(before).push(Seq::<char>::empty()));
            assert(views(out@) =~= split_pieces(s@, sep@));
        }
        return out;
    }
    let mut start: usize = 0;
    let mut i: usize = 0;
    while i < v.len()
        invariant
            start <= i <= v@.len(),
            p@.len() > 0,
            views(out@) + pieces_from(v@, p@, start as nat) == pieces_from(v@, p@, 0),
            first_match_from(v@, p@, start as nat) == first_match_from(v@, p@, i as nat),
        decreases v@.len() - i,
    {
        if match_here(&v, &p, i) {
            let piece = string_of(&v, start, i);
            proof {
                lemma_first_match_bounds(v@, p@, i as nat);
                assert(first_match_from(v@, p@, i as nat) == Some(i as nat));
                assert(pieces_from(v@, p@, start as nat) == seq![v@.subrange(start as int, i as int)] + pieces_from(v@, p@, (i + p@.len()) as nat));
            }
            let ghost old_out = out@;
            out.push(piece);
            proof {
                assert(views(out@) =~= views(old_out).push(piece@));
                assert(views(out@) + pieces_from(v@, p@, (i + p@.len()) as nat) =~= views(old_out) + (seq![piece@] + pieces_from(v@, p@, (i + p@.len()) as nat)));
            }
            i = i + p.len();
            start = i;
        } else {
            proof {
                lemma_first_match_skip(v@, p@, i as nat, (i + 1) as nat);
            }
            i = i + 1;
        }
    }
    proof {
        lemma_first_match_bounds(v@, p@, i as nat);
        assert(first_match_from(v@, p@, i as nat) is None);
        assert(pieces_from(v@, p@, start as nat) == seq![v@.skip(start as int)]);
        assert(v@.skip(start as int) =~= v@.subrange(start as int, v@.len() as int));
    }
    let last = string_of(&v, start, v.len());
    let ghost old_out = out@;
    out.push(last);
    proof {
        assert(views(out@) =~= views(old_out).push(last@));
        assert(views(out@) =~= views(old_out) + seq![last@]);
    }
    out
}

/// The first position from `i` on where `c` occurs in `s`.
pub open spec fn char_pos(s: Seq<char>, c: char, i: nat) -> Option<nat>
    decreases s.len() - i,
{
    if i >= s.len() {
        None
    } else if s[i as int] == c {
        Some(i)
    } else {
        char_pos(s, c, i + 1)
    }
}

/// The first position of `c` in `v`.
pub fn char_position(v: &Vec<char>, c: char) -> (r: Option<usize>)
    ensures
        match r {
            Some(k) => char_pos(v@, c, 0) == Some(k as nat) && k < v@.len(),
            None => char_pos(v@, c, 0) is None,
        },
{
    let mut i: usize = 0;
    while i < v.len()
        invariant
            i <= v@.len(),
            char_pos(v@, c, 0) == char_pos(v@, c, i as nat),
        decreases v@.len() - i,
    {
        if v[i] == c {
            return Some(i);
        }
        i = i + 1;
    }
    None
}

/// `s` without `prefix`, when it starts with it (`str::strip_prefix`).
pub fn strip_prefix(s: &str, prefix: &str) -> (r: Option<String>)
    ensures
        match r {
            Some(x) => prefix@.is_prefix_of(s@) && x@ == s@.skip(prefix@.len() as int),
            None => !prefix@.is_prefix_of(s@),
        },
{
    let v = chars_of(s);
    let p = chars_of(prefix);
    if p.len() > v.len() {
        return None;
    }
    let mut i: usize = 0;
    while i < p.len()
        invariant
            v@ == s@,
            p@ == prefix@,
            p@.len() <= v@.len(),
            i <= p@.len(),
            forall|k: int| 0 <= k < i ==> v@[k] == p@[k],
        decreases p@.len() - i,
    {
        if v[i] != p[i] {
            proof {
                assert(v@.subrange(0, p@.len() as int)[i as int] != p@[i as int]);
                assert(!(p@ =~= v@.subrange(0, p@.len() as int)));
            }
            return None;
        }
        i = i + 1;
    }
    proof {
        assert(p@ =~= v@.subrange(0, p@.len() as int));
        assert(v@.subrange(p@.len() as int, v@.len() as int) =~= v@.skip(p@.len() as int));
    }
    Some(string_of(&v, p.len(), v.len()))
}

/// The texts of `s` without repetitions, each where it first occurs.
pub open spec fn first_occurrences(s: Seq<Seq<char>>) -> Seq<Seq<char>>
    decreases s.len(),
{
    if s.len() == 0 {
        Seq::empty()
    } else {
        let d = first_occurrences(s.drop_last());
        if d.contains(s.last()) {
            d
        } else {
            d.push(s.last())
        }
    }
}


/// A text occurs among the first occurrences exactly when it occurs.
pub proof fn lemma_first_occurrences(s: Seq<Seq<char>>, k: Seq<char>)
    ensures
        first_occurrences(s).contains(k) <==> s.contains(k),
    decreases s.len(),
{
    if s.len() > 0 {
        lemma_first_occurrences(s.drop_last(), k);
        let d = first_occurrences(s.drop_last());
        if s.drop_last().contains(k) {
            let i = choose|i: int| 0 <= i < s.drop_last().len() && s.drop_last()[i] == k;
            assert(s[i] == k);
        }
        if s.contains(k) {
            let i = choose|i: int| 0 <= i < s.len() && s[i] == k;
            if i < s.len() - 1 {
                assert(s.drop_last()[i] == k);
            }
        }
        if !d.contains(s.last()) {
            assert(d.push(s.last())[d.len() as int] == s.last());
            if d.push(s.last()).contains(k) {
                let j = choose|j: int| 0 <= j < d.push(s.last()).len() && d.push(s.last())[j] == k;
                if j < d.len() {
                    assert(d[j] == k);
                }
            }
            if d.contains(k) {
                let j = choose|j: int| 0 <= j < d.len() && d[j] == k;
                assert(d.push(s.last())[j] == k);
            }
        }
    }
}

} // verus!
