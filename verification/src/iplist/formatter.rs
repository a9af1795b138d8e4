use vstd::prelude::*;

use crate::iptools::network::ListNetwork;

verus! {

broadcast use vstd::string::group_string_axioms;

/// The formats in which lists are served.
#[derive(Copy, Clone, Debug, PartialEq, Eq, Structural)]
pub enum OutputFormat {
    Json,
    Text,
    Nftables,
}

impl Default for OutputFormat {
    fn default() -> (r: Self)
        ensures
            r == OutputFormat::Json,
    {
        OutputFormat::Json
    }
}

/// A list rendered in one of the output formats.
pub struct FormattedOutput {
    pub output: String,
    pub format: OutputFormat,
}

impl FormattedOutput {
    /// A rendered list.
    pub fn new(output: String, format: OutputFormat) -> (r: Self)
        ensures
            r.output == output,
            r.format == format,
    {
        Self { output, format }
    }

    /// The rendered text.
    pub fn to_string(&self) -> (r: String)
        ensures
            r@ == self.output@,
    {
        self.output.clone()
    }
}

/// The lowercase text that std's `str::to_lowercase` gives for `s`.
pub uninterp spec fn lowercase_text(s: Seq<char>) -> Seq<char>;

/// Lowercases text with std's `str::to_lowercase` (Unicode lowercase mapping).
#[verifier::external_body]
fn to_lowercase(s: &str) -> (r: String)
    ensures
        r@ == lowercase_text(s@),
{
    s.to_lowercase()
}

/// The texts of the networks joined by newlines.
pub open spec fn joined_lines<T: ListNetwork>(data: Seq<T>) -> Seq<char>
    decreases data.len(),
{
    if data.len() == 0 {
        Seq::empty()
    } else if data.len() == 1 {
        data[0].spec_text()
    } else {
        joined_lines(data.drop_last()) + "\n"@ + data.last().spec_text()
    }
}

/// The nftables element lines of the networks of one family (`v4` or not), in order.
pub open spec fn nft_elements<T: ListNetwork>(data: Seq<T>, v4: bool) -> Seq<char>
    decreases data.len(),
{
    if data.len() == 0 {
        Seq::empty()
    } else {
        let rest = nft_elements(data.drop_last(), v4);
        if (data.last().key().addr is Ipv4) == v4 {
            rest + "\t\t"@ + data.last().spec_text() + ",\n"@
        } else {
            rest
        }
    }
}

/// Some network of the data is of the family `v4`.
pub open spec fn has_family<T: ListNetwork>(data: Seq<T>, v4: bool) -> bool {
    exists|i: int| 0 <= i < data.len() && ((#[trigger] data[i]).key().addr is Ipv4) == v4
}

/// The opening of the nftables set of one family.
pub open spec fn nft_set_head(name: Seq<char>, v4: bool) -> Seq<char> {
    if v4 {
        "\nset "@ + name + "_ipv4 { \n\ttype ipv4_addr\n\tcounter\n\tflags interval\n\tauto-merge\n\telements = {\n"@
    } else {
        "\nset "@ + name + "_ipv6 { \n\ttype ipv6_addr\n\tcounter\n\tflags interval\n\tauto-merge\n\telements = {\n"@
    }
}

/// The nftables set of one family holding the networks of that family.
pub open spec fn nft_set<T: ListNetwork>(data: Seq<T>, name: Seq<char>, v4: bool) -> Seq<char> {
    nft_set_head(name, v4) + nft_elements(data, v4) + "\t}\n}\n\n"@
}

/// The nftables rendering: a set per family present, the IPv4 set first.
pub open spec fn nft_text<T: ListNetwork>(data: Seq<T>, name: Seq<char>) -> Seq<char> {
    let v4 = has_family(data, true);
    let v6 = has_family(data, false);
    if v4 && v6 {
        nft_set(data, name, true) + "\n"@ + nft_set(data, name, false)
    } else if v4 {
        nft_set(data, name, true)
    } else if v6 {
        nft_set(data, name, false)
    } else {
        Seq::empty()
    }
}

/// The name of the nftables sets: the given set name, else `list`, lowercased.
pub open spec fn nft_set_name(set_name: Option<Seq<char>>) -> Seq<char> {
    lowercase_text(
        match set_name {
            Some(n) => n,
            None => "list"@,
        },
    )
}

/// The text of `data` in format `format`; `json` is the JSON text of the data.
pub open spec fn spec_format<T: ListNetwork>(
    format: OutputFormat,
    data: Seq<T>,
    set_name: Option<Seq<char>>,
    json: Seq<char>,
) -> Seq<char> {
    match format {
        OutputFormat::Text => joined_lines(data),
        OutputFormat::Json => json,
        OutputFormat::Nftables => nft_text(data, nft_set_name(set_name)),
    }
}

fn text_lines<T: ListNetwork>(data: &[T]) -> (r: String)
    ensures
        r@ == joined_lines(data@),
{
    let mut out = String::new();
    let mut i: usize = 0;
    while i < data.len()
        invariant
            i <= data@.len(),
            out@ == joined_lines(data@.take(i as int)),
        decreases data@.len() - i,
    {
        let t = data[i].network_string();
        proof {
            assert(data@.take(i + 1).drop_last() =~= data@.take(i as int));
        }
        if i == 0 {
            out = t;
        } else {
            out = out.concat("\n");
            out = out.concat(t.as_str());
        }
        i = i + 1;
    }
    proof {
        assert(data@.take(data@.len() as int) =~= data@);
    }
    out
}

fn nft_set_text<T: ListNetwork>(data: &[T], name: &str, v4: bool) -> (r: (String, bool))
    ensures
        r.0@ == nft_set(data@, name@, v4),
        r.1 == has_family(data@, v4),
{
    let mut out = String::from_str("\nset ");
    out = out.concat(name);
    if v4 {
        out = out.concat("_ipv4 { \n\ttype ipv4_addr\n\tcounter\n\tflags interval\n\tauto-merge\n\telements = {\n");
    } else {
        out = out.concat("_ipv6 { \n\ttype ipv6_addr\n\tcounter\n\tflags interval\n\tauto-merge\n\telements = {\n");
    }
    let ghost head = out@;
    let mut found = false;
    let mut i: usize = 0;
    while i < data.len()
        invariant
            i <= data@.len(),
            out@ == head + nft_elements(data@.take(i as int), v4),
            found == has_family(data@.take(i as int), v4),
        decreases data@.len() - i,
    {
        let t = data[i].network_string();
        let is4 = data[i].is_ipv4();
        proof {
            assert(data@.take(i + 1).drop_last() =~= data@.take(i as int));
            assert(data@.take(i + 1)[i as int] == data@[i as int]);
        }
        if is4 == v4 {
            out = out.concat("\t\t");
            out = out.concat(t.as_str());
            out = out.concat(",\n");
            found = true;
            proof {
                assert(has_family(data@.take(i + 1), v4));
            }
        } else {
            proof {
                if has_family(data@.take(i + 1), v4) {
                    let k = choose|k: int| 0 <= k < i + 1 && ((#[trigger] data@.take(i + 1)[k]).key().addr is Ipv4) == v4;
                    assert(data@.take(i + 1)[k] == data@.take(i as int)[k]);
                }
            }
        }
        proof {
            if has_family(data@.take(i as int), v4) {
                let k = choose|k: int| 0 <= k < i && ((#[trigger] data@.take(i as int)[k]).key().addr is Ipv4) == v4;
                assert(data@.take(i + 1)[k] == data@.take(i as int)[k]);
            }
        }
        i = i + 1;
    }
    proof {
        assert(data@.take(data@.len() as int) =~= data@);
    }
    out = out.concat("\t}\n}\n\n");
    (out, found)
}

impl OutputFormat {
    /// Renders the networks of `data` in this format: one CIDR per line for
    /// text, `json` (the JSON text of the data) for JSON, and an nftables set
    /// per family present for nftables, named after `set_name` (default `list`),
    /// lowercased.
    pub fn format<T: ListNetwork>(&self, data: &[T], set_name: Option<&str>, json: String) -> (r: FormattedOutput)
        ensures
            r.format == *self,
            r.output@ == spec_format(
                *self,
                data@,
                match set_name {
                    Some(n) => Some(n@),
                    None => None,
                },
                json@,
            ),
            *self == OutputFormat::Nftables ==> nft_output_holds(
                r.output@,
                data@,
                nft_set_name(
                    match set_name {
                        Some(n) => Some(n@),
                        None => None,
                    },
                ),
            ),
    {
        proof {
            law_nftables_sets(
                data@,
                match set_name {
                    Some(n) => Some(n@),
                    None => None,
                },
                json@,
            );
        }
        match self {
            OutputFormat::Text => FormattedOutput::new(text_lines(data), OutputFormat::Text),
            OutputFormat::Json => FormattedOutput::new(json, OutputFormat::Json),
            OutputFormat::Nftables => {
                let name = match set_name {
                    Some(n) => to_lowercase(n),
                    None => to_lowercase("list"),
                };
                let (out4, v4) = nft_set_text(data, name.as_str(), true);
                let (out6, v6) = nft_set_text(data, name.as_str(), false);
                let output = if v4 && v6 {
                    let o = out4.concat("\n");
                    o.concat(out6.as_str())
                } else if v4 {
                    out4
                } else if v6 {
                    out6
                } else {
                    String::new()
                };
                FormattedOutput::new(output, OutputFormat::Nftables)
            },
        }
    }
}

/// `t` occurs in `s`.
pub open spec fn contains_text(s: Seq<char>, t: Seq<char>) -> bool {
    exists|k: int| 0 <= k && k + t.len() <= s.len() && #[trigger] s.subrange(k, k + t.len()) == t
}

/// Text found in `s` is found in `p + s + q`.
pub proof fn lemma_contains_within(s: Seq<char>, t: Seq<char>, p: Seq<char>, q: Seq<char>)
    requires
        contains_text(s, t),
    ensures
        contains_text(p + s + q, t),
{
    let k = choose|k: int| 0 <= k && k + t.len() <= s.len() && #[trigger] s.subrange(k, k + t.len()) == t;
    let w = p + s + q;
    assert(w.subrange(p.len() + k, p.len() + k + t.len()) =~= s.subrange(k, k + t.len()));
}

/// A text occurs in itself.
pub proof fn lemma_contains_self(s: Seq<char>)
    ensures
        contains_text(s, s),
{
    let k: int = 0;
    assert(s.subrange(k, k + s.len()) =~= s);
}

/// The element line of each network of family `v4` is among the element lines.
proof fn lemma_nft_elements_contain<T: ListNetwork>(data: Seq<T>, v4: bool, j: int)
    requires
        0 <= j < data.len(),
        (data[j].key().addr is Ipv4) == v4,
    ensures
        contains_text(nft_elements(data, v4), "\t\t"@ + data[j].spec_text() + ",\n"@),
    decreases data.len(),
{
    let rest = nft_elements(data.drop_last(), v4);
    let full = nft_elements(data, v4);
    let line = "\t\t"@ + data[j].spec_text() + ",\n"@;
    if j == data.len() - 1 {
        assert(data.last() == data[j]);
        assert(full == rest + "\t\t"@ + data[j].spec_text() + ",\n"@);
        let k = rest.len() as int;
        assert(full.subrange(k, k + line.len()) =~= line);
    } else {
        assert(data.drop_last()[j] == data[j]);
        lemma_nft_elements_contain(data.drop_last(), v4, j);
        if (data.last().key().addr is Ipv4) == v4 {
            let tail = "\t\t"@ + data.last().spec_text() + ",\n"@;
            assert(full == rest + "\t\t"@ + data.last().spec_text() + ",\n"@);
            let k = choose|k: int| 0 <= k && k + line.len() <= rest.len() && #[trigger] rest.subrange(k, k + line.len()) == line;
            assert(full.subrange(k, k + line.len()) =~= rest.subrange(k, k + line.len()));
        } else {
            assert(full == rest);
        }
    }
}

/// The IPv4 set of the nftables text holds its element lines.
proof fn lemma_nft_set_in_text<T: ListNetwork>(data: Seq<T>, name: Seq<char>, v4: bool)
    requires
        has_family(data, v4),
    ensures
        contains_text(nft_text(data, name), nft_set(data, name, v4)),
{
    let s4 = nft_set(data, name, true);
    let s6 = nft_set(data, name, false);
    let e = Seq::<char>::empty();
    if has_family(data, true) && has_family(data, false) {
        if v4 {
            lemma_contains_self(s4);
            lemma_contains_within(s4, s4, e, "\n"@ + s6);
            assert(e + s4 + ("\n"@ + s6) =~= s4 + "\n"@ + s6);
        } else {
            lemma_contains_self(s6);
            lemma_contains_within(s6, s6, s4 + "\n"@, e);
            assert((s4 + "\n"@) + s6 + e =~= s4 + "\n"@ + s6);
        }
    } else if v4 {
        lemma_contains_self(s4);
    } else {
        lemma_contains_self(s6);
    }
}

/// What nftables output `out` of `data` holds: for each family that some
/// network of the data is of, a set of that family, named `name` with the
/// family's suffix and typed `ipv4_addr` or `ipv6_addr`, whose elements include
/// a line `\t\t{cidr},` for every network of that family; no output at all
/// for no networks.
pub open spec fn nft_output_holds<T: ListNetwork>(out: Seq<char>, data: Seq<T>, name: Seq<char>) -> bool {
    &&& (exists|i: int| 0 <= i < data.len() && (#[trigger] data[i]).key().addr is Ipv4) ==> exists|mid: Seq<char>|
        #[trigger] contains_text(out, "\nset "@ + name + "_ipv4 { \n\ttype ipv4_addr\n\tcounter\n\tflags interval\n\tauto-merge\n\telements = {\n"@ + mid + "\t}\n}\n\n"@)
        && forall|j: int| 0 <= j < data.len() && (#[trigger] data[j]).key().addr is Ipv4
            ==> contains_text(mid, "\t\t"@ + data[j].spec_text() + ",\n"@)
    &&& (exists|i: int| 0 <= i < data.len() && (#[trigger] data[i]).key().addr is Ipv6) ==> exists|mid: Seq<char>|
        #[trigger] contains_text(out, "\nset "@ + name + "_ipv6 { \n\ttype ipv6_addr\n\tcounter\n\tflags interval\n\tauto-merge\n\telements = {\n"@ + mid + "\t}\n}\n\n"@)
        && forall|j: int| 0 <= j < data.len() && (#[trigger] data[j]).key().addr is Ipv6
            ==> contains_text(mid, "\t\t"@ + data[j].spec_text() + ",\n"@)
    &&& data.len() == 0 ==> out.len() == 0
}

/// Law of nftables output: each family present gets its set, holding an
/// element line for every network of that family (see `nft_output_holds`).
pub proof fn law_nftables_sets<T: ListNetwork>(data: Seq<T>, set_name: Option<Seq<char>>, json: Seq<char>)
    ensures
        nft_output_holds(spec_format(OutputFormat::Nftables, data, set_name, json), data, nft_set_name(set_name)),
{
    let name = nft_set_name(set_name);
    let out = spec_format(OutputFormat::Nftables, data, set_name, json);
    assert(out == nft_text(data, name));
    if exists|i: int| 0 <= i < data.len() && (#[trigger] data[i]).key().addr is Ipv4 {
        let i = choose|i: int| 0 <= i < data.len() && (#[trigger] data[i]).key().addr is Ipv4;
        assert(has_family(data, true));
        let mid = nft_elements(data, true);
        lemma_nft_set_in_text(data, name, true);
        assert forall|j: int| 0 <= j < data.len() && (#[trigger] data[j]).key().addr is Ipv4
            implies contains_text(mid, "\t\t"@ + data[j].spec_text() + ",\n"@) by {
            lemma_nft_elements_contain(data, true, j);
        }
    }
    if exists|i: int| 0 <= i < data.len() && (#[trigger] data[i]).key().addr is Ipv6 {
        let i = choose|i: int| 0 <= i < data.len() && (#[trigger] data[i]).key().addr is Ipv6;
        assert(!(data[i].key().addr is Ipv4));
        assert(has_family(data, false));
        let mid = nft_elements(data, false);
        lemma_nft_set_in_text(data, name, false);
        assert forall|j: int| 0 <= j < data.len() && (#[trigger] data[j]).key().addr is Ipv6
            implies contains_text(mid, "\t\t"@ + data[j].spec_text() + ",\n"@) by {
            assert(!(data[j].key().addr is Ipv4));
            lemma_nft_elements_contain(data, false, j);
        }
    }
}

/// The lines of two lists one after the other are the lines of the first, a
/// newline, and the lines of the second.
pub proof fn lemma_joined_lines_concat<T: ListNetwork>(a: Seq<T>, b: Seq<T>)
    requires
        a.len() > 0,
        b.len() > 0,
    ensures
        joined_lines(a + b) == joined_lines(a) + "\n"@ + joined_lines(b),
    decreases b.len(),
{
    let ab = a + b;
    assert(ab.drop_last() =~= a + b.drop_last());
    assert(ab.last() == b.last());
    if b.len() == 1 {
        assert(ab.drop_last() =~= a);
        assert(joined_lines(b) == b[0].spec_text());
        assert(b[0] == b.last());
    } else {
        lemma_joined_lines_concat(a, b.drop_last());
        assert(joined_lines(ab) =~= joined_lines(a) + "\n"@ + joined_lines(b));
    }
}

} // verus!
