use vstd::prelude::*;

use crate::text::{char_pos, char_position, chars_of, spec_trim, split_on, split_pieces, string_of, trim, views};

verus! {

broadcast use vstd::string::group_string_axioms;

/// `s` without the leading characters equal to `c`.
pub open spec fn trim_start_char(s: Seq<char>, c: char) -> Seq<char>
    decreases s.len(),
{
    if s.len() > 0 && s[0] == c {
        trim_start_char(s.drop_first(), c)
    } else {
        s
    }
}

/// `s` without the trailing characters equal to `c`.
pub open spec fn trim_end_char(s: Seq<char>, c: char) -> Seq<char>
    decreases s.len(),
{
    if s.len() > 0 && s.last() == c {
        trim_end_char(s.drop_last(), c)
    } else {
        s
    }
}

/// A header value without surrounding whitespace and double quotes.
pub open spec fn spec_unquote(s: Seq<char>) -> Seq<char> {
    trim_end_char(trim_start_char(spec_trim(s), '"'), '"')
}

/// The text before the first occurrence of `sep` (all of `s` if there is none).
pub open spec fn first_piece(s: Seq<char>, sep: Seq<char>) -> Seq<char> {
    split_pieces(s, sep)[0]
}

/// The address of a `host:port` or `[v6]:port` text, without port and brackets.
pub open spec fn spec_bare_address(s: Seq<char>) -> Seq<char> {
    if s.len() > 0 && s[0] == '[' {
        trim_end_char(trim_start_char(first_piece(s, "]:"@), '['), ']')
    } else {
        first_piece(s, ":"@)
    }
}

proof fn lemma_trim_start_char(s: Seq<char>, c: char, i: int)
    requires
        0 <= i <= s.len(),
        forall|k: int| 0 <= k < i ==> #[trigger] s[k] == c,
        i == s.len() || s[i] != c,
    ensures
        trim_start_char(s, c) == s.skip(i),
    decreases i,
{
    if i > 0 {
        lemma_trim_start_char(s.drop_first(), c, i - 1);
        assert(s.drop_first().skip(i - 1) =~= s.skip(i));
    } else {
        assert(s.skip(0) =~= s);
    }
}

proof fn lemma_trim_end_char(s: Seq<char>, c: char, j: int)
    requires
        0 <= j <= s.len(),
        forall|k: int| j <= k < s.len() ==> #[trigger] s[k] == c,
        j == 0 || s[j - 1] != c,
    ensures
        trim_end_char(s, c) == s.take(j),
    decreases s.len() - j,
{
    if j < s.len() {
        lemma_trim_end_char(s.drop_last(), c, j);
        assert(s.drop_last().take(j) =~= s.take(j));
    } else {
        assert(s.take(j) =~= s);
    }
}

/// `s` without leading `a` characters and trailing `b` characters (first the leading ones).
fn trim_chars(s: &str, a: char, b: char) -> (r: String)
    ensures
        r@ == trim_end_char(trim_start_char(s@, a), b),
{
    let v = chars_of(s);
    let mut i: usize = 0;
    while i < v.len() && v[i] == a
        invariant
            i <= v@.len(),
            forall|k: int| 0 <= k < i ==> #[trigger] v@[k] == a,
        decreases v@.len() - i,
    {
        i = i + 1;
    }
    let mut j: usize = v.len();
    while j > i && v[j - 1] == b
        invariant
            i <= j <= v@.len(),
            forall|k: int| j <= k < v@.len() ==> #[trigger] v@[k] == b,
        decreases j - i,
    {
        j = j - 1;
    }
    proof {
        lemma_trim_start_char(v@, a, i as int);
        let t = v@.skip(i as int);
        assert forall|k: int| j - i <= k < t.len() implies #[trigger] t[k] == b by {
            assert(t[k] == v@[i + k]);
        }
        if j > i {
            assert(t[j - i - 1] == v@[j - 1]);
        }
        lemma_trim_end_char(t, b, j - i);
        assert(t.take(j - i) =~= v@.subrange(i as int, j as int));
    }
    string_of(&v, i, j)
}

/// A header value without surrounding whitespace and double quotes.
pub fn unquote(val: &str) -> (r: String)
    ensures
        r@ == spec_unquote(val@),
{
    let t = trim(val);
    trim_chars(t.as_str(), '"', '"')
}

/// The address of a `host:port` or `[v6]:port` text, without port and brackets.
pub fn bare_address(val: &str) -> (r: String)
    ensures
        r@ == spec_bare_address(val@),
{
    let v = chars_of(val);
    if v.len() > 0 && v[0] == '[' {
        let parts = split_on(val, "]:");
        proof {
            reveal_strlit("]:");
            assert(views(parts@).len() == parts@.len());
            assert(views(parts@)[0] == parts@[0]@);
        }
        trim_chars(parts[0].as_str(), '[', ']')
    } else {
        let parts = split_on(val, ":");
        proof {
            reveal_strlit(":");
            assert(views(parts@).len() == parts@.len());
            assert(views(parts@)[0] == parts@[0]@);
        }
        parts[0].clone()
    }
}

/// `s` is `for` up to ASCII case.
pub open spec fn is_for_name(s: Seq<char>) -> bool {
    &&& s.len() == 3
    &&& (s[0] == 'f' || s[0] == 'F')
    &&& (s[1] == 'o' || s[1] == 'O')
    &&& (s[2] == 'r' || s[2] == 'R')
}

/// What one `name=value` element of a `Forwarded` header gives: the bare
/// address of its value when the name is `for`.
pub open spec fn forwarded_for(item: Seq<char>) -> Option<Seq<char>> {
    let t = spec_trim(item);
    match char_pos(t, '=', 0) {
        Some(k) => if is_for_name(spec_trim(t.take(k as int))) {
            Some(spec_bare_address(spec_unquote(t.skip(k + 1int))))
        } else {
            None
        },
        None => None,
    }
}

/// The first `Some` that `f` gives on the elements of `s`, in order.
pub open spec fn find_first(s: Seq<Seq<char>>, f: spec_fn(Seq<char>) -> Option<Seq<char>>) -> Option<Seq<char>>
    decreases s.len(),
{
    if s.len() == 0 {
        None
    } else if f(s[0]) is Some {
        f(s[0])
    } else {
        find_first(s.drop_first(), f)
    }
}

/// The `for` address of a `;`-separated group of `,`-separated elements.
pub open spec fn group_for(g: Seq<char>) -> Option<Seq<char>> {
    find_first(split_pieces(g, ","@), |x: Seq<char>| forwarded_for(x))
}

/// The `for` address of one `Forwarded` header value.
pub open spec fn header_for(h: Seq<char>) -> Option<Seq<char>> {
    find_first(split_pieces(h, ";"@), |g: Seq<char>| group_for(g))
}

/// The client address that the proxy headers name: the first `for` element of
/// the `Forwarded` headers, else the first entry of `X-Forwarded-For` when it
/// is not blank.
pub open spec fn spec_real_ip(forwarded: Seq<Seq<char>>, x_forwarded_for: Option<Seq<char>>) -> Option<Seq<char>> {
    match find_first(forwarded, |h: Seq<char>| header_for(h)) {
        Some(a) => Some(a),
        None => match x_forwarded_for {
            Some(x) => {
                let f = spec_trim(first_piece(x, ","@));
                if f.len() > 0 {
                    Some(f)
                } else {
                    None
                }
            },
            None => None,
        },
    }
}

/// The view of an optional string.
pub open spec fn opt_view(o: Option<String>) -> Option<Seq<char>> {
    match o {
        Some(s) => Some(s@),
        None => None,
    }
}

proof fn lemma_find_step(s: Seq<Seq<char>>, f: spec_fn(Seq<char>) -> Option<Seq<char>>, i: int)
    requires
        0 <= i < s.len(),
    ensures
        find_first(s.skip(i), f) == (if f(s[i]) is Some { f(s[i]) } else { find_first(s.skip(i + 1), f) }),
{
    assert(s.skip(i)[0] == s[i]);
    assert(s.skip(i).drop_first() =~= s.skip(i + 1));
}

fn is_for(s: &str) -> (r: bool)
    ensures
        r == is_for_name(s@),
{
    let v = chars_of(s);
    v.len() == 3 && (v[0] == 'f' || v[0] == 'F') && (v[1] == 'o' || v[1] == 'O') && (v[2] == 'r' || v[2] == 'R')
}

fn element_for(item: &str) -> (r: Option<String>)
    ensures
        opt_view(r) == forwarded_for(item@),
{
    let t = trim(item);
    let v = chars_of(t.as_str());
    match char_position(&v, '=') {
        Some(k) => {
            let name = string_of(&v, 0, k);
            let tn = trim(name.as_str());
            proof {
                assert(v@.subrange(0, k as int) =~= v@.take(k as int));
            }
            if is_for(tn.as_str()) {
                assert(k < v.len());
                let val = string_of(&v, k + 1, v.len());
                proof {
                    assert(v@.subrange(k + 1, v@.len() as int) =~= v@.skip(k + 1));
                }
                let u = unquote(val.as_str());
                Some(bare_address(u.as_str()))
            } else {
                None
            }
        },
        None => None,
    }
}

fn group_address(g: &str) -> (r: Option<String>)
    ensures
        opt_view(r) == group_for(g@),
{
    let items = split_on(g, ",");
    proof {
        reveal_strlit(",");
    }
    let ghost s = views(items@);
    let ghost f = |x: Seq<char>| forwarded_for(x);
    let mut i: usize = 0;
    proof {
        assert(s.skip(0) =~= s);
    }
    while i < items.len()
        invariant
            i <= items@.len(),
            s == views(items@),
            s.len() == items@.len(),
            f == (|x: Seq<char>| forwarded_for(x)),
            group_for(g@) == find_first(s, f),
            find_first(s, f) == find_first(s.skip(i as int), f),
        decreases items@.len() - i,
    {
        proof {
            lemma_find_step(s, f, i as int);
        }
        let a = element_for(items[i].as_str());
        if a.is_some() {
            return a;
        }
        i = i + 1;
    }
    proof {
        assert(s.skip(i as int).len() == 0);
    }
    None
}

fn header_address(h: &str) -> (r: Option<String>)
    ensures
        opt_view(r) == header_for(h@),
{
    let groups = split_on(h, ";");
    proof {
        reveal_strlit(";");
    }
    let ghost s = views(groups@);
    let ghost f = |x: Seq<char>| group_for(x);
    let mut i: usize = 0;
    proof {
        assert(s.skip(0) =~= s);
    }
    while i < groups.len()
        invariant
            i <= groups@.len(),
            s == views(groups@),
            s.len() == groups@.len(),
            f == (|x: Seq<char>| group_for(x)),
            header_for(h@) == find_first(s, f),
            find_first(s, f) == find_first(s.skip(i as int), f),
        decreases groups@.len() - i,
    {
        proof {
            lemma_find_step(s, f, i as int);
        }
        let a = group_address(groups[i].as_str());
        if a.is_some() {
            return a;
        }
        i = i + 1;
    }
    proof {
        assert(s.skip(i as int).len() == 0);
    }
    None
}

/// The client address that a request's proxy headers name: the first `for`
/// element of its `Forwarded` header values (`forwarded`, in order), else the
/// first entry of its `X-Forwarded-For` value when that is not blank.
pub fn real_ip_remote_addr(forwarded: &[String], x_forwarded_for: Option<&str>) -> (r: Option<String>)
    ensures
        opt_view(r) == spec_real_ip(views(forwarded@), match x_forwarded_for {
            Some(x) => Some(x@),
            None => None,
        }),
{
    let ghost s = views(forwarded@);
    let ghost f = |x: Seq<char>| header_for(x);
    let mut i: usize = 0;
    proof {
        assert(s.skip(0) =~= s);
    }
    while i < forwarded.len()
        invariant
            i <= forwarded@.len(),
            s == views(forwarded@),
            s.len() == forwarded@.len(),
            f == (|x: Seq<char>| header_for(x)),
            find_first(s, f) == find_first(s.skip(i as int), f),
        decreases forwarded@.len() - i,
    {
        proof {
            lemma_find_step(s, f, i as int);
        }
        let a = header_address(forwarded[i].as_str());
        if a.is_some() {
            return a;
        }
        i = i + 1;
    }
    proof {
        assert(s.skip(i as int).len() == 0);
    }
    match x_forwarded_for {
        Some(x) => {
            let parts = split_on(x, ",");
            proof {
                reveal_strlit(",");
                assert(views(parts@).len() == parts@.len());
                assert(views(parts@)[0] == parts@[0]@);
            }
            let first = trim(parts[0].as_str());
            if chars_of(first.as_str()).len() > 0 {
                Some(first)
            } else {
                None
            }
        },
        None => None,
    }
}

} // verus!
