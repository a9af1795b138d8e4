use vstd::prelude::*;

use crate::error::AppError;
use crate::iplist::config::BasicAuth;
use crate::text::{chars_of, dec_text, decimal, push_char, views};

verus! {

broadcast use vstd::string::group_string_axioms;

// ---------------------------------------------------------------------------
// Number texts
// ---------------------------------------------------------------------------

/// `s` with zeros in front up to `width` characters.
pub open spec fn zero_padded(s: Seq<char>, width: nat) -> Seq<char>
    decreases width,
{
    if s.len() >= width {
        s
    } else {
        seq!['0'] + zero_padded(s, (width - 1) as nat)
    }
}

/// `n` in decimal with zeros in front up to `width` characters (`{:0width}`).
pub open spec fn padded_dec(n: nat, width: nat) -> Seq<char> {
    zero_padded(dec_text(n), width)
}

/// A year in at least four characters, as `{:04}` writes it: a minus sign
/// counts towards the width.
pub open spec fn year_text(y: i32) -> Seq<char> {
    if y >= 0 {
        padded_dec(y as nat, 4)
    } else {
        seq!['-'] + padded_dec((-y) as nat, 3)
    }
}

fn pad_zeros(s: String, width: usize) -> (r: String)
    ensures
        r@ == zero_padded(s@, width as nat),
    decreases width,
{
    let n = chars_of(s.as_str()).len();
    if n >= width {
        s
    } else {
        let rest = pad_zeros(s, width - 1);
        let mut z = String::new();
        push_char(&mut z, '0');
        proof {
            assert(z@ =~= seq!['0']);
        }
        z.concat(rest.as_str())
    }
}

/// `n` in decimal with zeros in front up to `width` characters.
pub fn padded_decimal(n: u64, width: usize) -> (r: String)
    ensures
        r@ == padded_dec(n as nat, width as nat),
{
    pad_zeros(decimal(n), width)
}

fn year_string(y: i32) -> (r: String)
    ensures
        r@ == year_text(y),
{
    if y >= 0 {
        padded_decimal(y as u64, 4)
    } else {
        let a: u64 = if y == i32::MIN { 2147483648u64 } else { (-y) as u64 };
        let p = padded_decimal(a, 3);
        let mut m = String::new();
        push_char(&mut m, '-');
        proof {
            assert(m@ =~= seq!['-']);
        }
        m.concat(p.as_str())
    }
}

// ---------------------------------------------------------------------------
// Downloads
// ---------------------------------------------------------------------------

/// What strfmt's `strfmt` makes of `template` with the variables `year`,
/// `month` and `day` set to the given texts: the text, or the text of its error.
pub uninterp spec fn strfmt_date(template: Seq<char>, year: Seq<char>, month: Seq<char>, day: Seq<char>) -> Result<Seq<char>, Seq<char>>;

/// Fills the `{year}`, `{month}` and `{day}` variables of `template` with
/// strfmt's `strfmt`. The result, or the text of its error, is named.
#[verifier::external_body]
fn fill_date(template: &str, year: &str, month: &str, day: &str) -> (r: Result<String, String>)
    ensures
        match (r, strfmt_date(template@, year@, month@, day@)) {
            (Ok(s), Ok(t)) => s@ == t,
            (Err(e), Err(t)) => e@ == t,
            _ => false,
        },
{
    let mut vars: std::collections::HashMap<String, String> = std::collections::HashMap::new();
    vars.insert("year".to_string(), year.to_string());
    vars.insert("month".to_string(), month.to_string());
    vars.insert("day".to_string(), day.to_string());
    match strfmt::strfmt(template, &vars) {
        Ok(s) => Ok(s),
        Err(e) => Err(e.to_string()),
    }
}

/// A download of a geo database.
pub struct Downloader<'a> {
    /// The address, where `{year}`, `{month}` and `{day}` stand for the date.
    pub uri: &'a str,
    /// Timeout in milliseconds.
    pub timeout: u64,
    /// Request headers, as (name, value) pairs.
    pub headers: &'a Vec<(String, String)>,
    pub basic_auth: Option<&'a BasicAuth>,
}

impl<'a> Downloader<'a> {
    /// A download of `uri` with the given timeout, headers and credentials.
    pub fn new(uri: &'a str, timeout: u64, headers: &'a Vec<(String, String)>, basic_auth: Option<&'a BasicAuth>) -> (r: Self)
        ensures
            r.uri == uri,
            r.timeout == timeout,
            r.headers == headers,
            r.basic_auth == basic_auth,
    {
        Downloader { uri, timeout, headers, basic_auth }
    }

    /// The address to download from on the given date: the template with the
    /// year in four digits and the month and day in two.
    pub fn download_uri(&self, year: i32, month: u8, day: u8) -> (r: Result<String, AppError>)
        ensures
            match (r, strfmt_date(self.uri@, year_text(year), padded_dec(month as nat, 2), padded_dec(day as nat, 2))) {
                (Ok(s), Ok(t)) => s@ == t,
                (Err(e), Err(t)) => e matches AppError::FmtError(m) && m@ == t,
                _ => false,
            },
    {
        let y = year_string(year);
        let m = padded_decimal(month as u64, 2);
        let d = padded_decimal(day as u64, 2);
        match fill_date(self.uri, y.as_str(), m.as_str(), d.as_str()) {
            Ok(s) => Ok(s),
            Err(e) => Err(AppError::FmtError(e)),
        }
    }
}

// ---------------------------------------------------------------------------
// Downloaded files
// ---------------------------------------------------------------------------

/// The text of a duration of `ms` milliseconds, as `Duration`'s `Debug`
/// writes it: seconds with their fraction when a second or more, else
/// milliseconds (`0ns` for nothing).
pub open spec fn duration_text(ms: u64) -> Seq<char> {
    if ms >= 1000 {
        let frac = ms % 1000;
        dec_text((ms / 1000) as nat) + (if frac == 0 {
            Seq::<char>::empty()
        } else if frac % 100 == 0 {
            seq!['.'] + dec_text((frac / 100) as nat)
        } else if frac % 10 == 0 {
            seq!['.'] + padded_dec((frac / 10) as nat, 2)
        } else {
            seq!['.'] + padded_dec(frac as nat, 3)
        }) + "s"@
    } else if ms > 0 {
        dec_text(ms as nat) + "ms"@
    } else {
        "0ns"@
    }
}

/// The text of a duration in milliseconds, as `Duration`'s `Debug` writes it.
pub fn duration_string(ms: u64) -> (r: String)
    ensures
        r@ == duration_text(ms),
{
    proof {
        reveal_strlit("s");
        reveal_strlit("ms");
        reveal_strlit("0ns");
        reveal_strlit(".");
    }
    if ms >= 1000 {
        let frac = ms % 1000;
        let whole = decimal(ms / 1000);
        let tail = if frac == 0 {
            String::new()
        } else if frac % 100 == 0 {
            String::from_str(".").concat(decimal(frac / 100).as_str())
        } else if frac % 10 == 0 {
            String::from_str(".").concat(padded_decimal(frac / 10, 2).as_str())
        } else {
            String::from_str(".").concat(padded_decimal(frac, 3).as_str())
        };
        whole.concat(tail.as_str()).concat("s")
    } else if ms > 0 {
        decimal(ms).concat("ms")
    } else {
        String::from_str("0ns")
    }
}

/// The path of a downloaded file: `{folder}/download/{filename}`.
pub open spec fn download_path(folder: Seq<char>, filename: Seq<char>) -> Seq<char> {
    folder + "/download/"@ + filename
}

/// The local copy of a downloaded geo database.
pub struct Loader {
    pub folder: String,
    pub filename: String,
    /// Age after which the copy is stale, in milliseconds.
    pub max_age: u64,
}

impl Loader {
    /// The local copy `filename` under `folder`, stale after `max_age` milliseconds.
    pub fn new(folder: &str, filename: &str, max_age: u64) -> (r: Self)
        ensures
            r.folder@ == folder@,
            r.filename@ == filename@,
            r.max_age == max_age,
    {
        Loader { folder: folder.to_string(), filename: filename.to_string(), max_age }
    }

    /// Where the copy is kept.
    pub fn path(&self) -> (r: String)
        ensures
            r@ == download_path(self.folder@, self.filename@),
    {
        proof {
            reveal_strlit("/download/");
        }
        self.folder.clone().concat("/download/").concat(self.filename.as_str())
    }

    /// Whether a copy written at `modified` may still be used at `now`, both
    /// in nanoseconds since the Unix epoch: it may unless `now` is past
    /// `modified` plus the maximum age (kept in milliseconds).
    pub fn check_age(&self, modified: u128, now: u128) -> (r: Result<(), AppError>)
        ensures
            modified + self.max_age * 1_000_000 > u128::MAX ==> (r matches Err(AppError::DataFileLoadError(m))
                && m@ == "could not increment time to compare downloaded file age"@),
            modified + self.max_age * 1_000_000 <= u128::MAX ==> match r {
                Ok(_) => now <= modified + self.max_age * 1_000_000,
                Err(e) => now > modified + self.max_age * 1_000_000 && (e matches AppError::DataFileLoadError(m)
                    && m@ == "downloaded file is older than the max age: "@ + duration_text(self.max_age)),
            },
    {
        proof {
            reveal_strlit("could not increment time to compare downloaded file age");
            reveal_strlit("downloaded file is older than the max age: ");
        }
        let max_age_nanos: u128 = self.max_age as u128 * 1_000_000;
        match modified.checked_add(max_age_nanos) {
            None => Err(AppError::DataFileLoadError(String::from_str("could not increment time to compare downloaded file age"))),
            Some(limit) => if now > limit {
                let m = String::from_str("downloaded file is older than the max age: ").concat(duration_string(self.max_age).as_str());
                Err(AppError::DataFileLoadError(m))
            } else {
                Ok(())
            },
        }
    }
}

/// Whether a failed load of the local copy should be answered by a fresh
/// download: only a copy that is missing, unreadable or stale is fetched again.
pub fn needs_download(e: &AppError) -> (r: bool)
    ensures
        r == (e is DataFileLoadError),
{
    match e {
        AppError::DataFileLoadError(_) => true,
        _ => false,
    }
}

// ---------------------------------------------------------------------------
// Archives
// ---------------------------------------------------------------------------

/// What the zip crate lists as the member names of the archive `body`, in
/// index order, or the text of its error.
pub uninterp spec fn zip_names(body: Seq<u8>) -> Result<Seq<Seq<char>>, Seq<char>>;

/// What the zip crate reads as the contents of the member `name` of the
/// archive `body`, or the text of its error.
pub uninterp spec fn zip_member(body: Seq<u8>, name: Seq<char>) -> Result<Seq<u8>, Seq<char>>;

/// The member names of a ZIP archive, read with the zip crate
/// (`ZipArchive::new`, `by_index`, `name`). The names, or the error text, are named.
#[verifier::external_body]
fn zip_member_names(body: &Vec<u8>) -> (r: Result<Vec<String>, String>)
    ensures
        match (r, zip_names(body@)) {
            (Ok(v), Ok(s)) => views(v@) == s,
            (Err(e), Err(t)) => e@ == t,
            _ => false,
        },
{
    let mut archive = match zip::ZipArchive::new(std::io::Cursor::new(body)) {
        Ok(a) => a,
        Err(e) => return Err(e.to_string()),
    };
    let mut names = Vec::new();
    for i in 0..archive.len() {
        match archive.by_index(i) {
            Ok(f) => names.push(f.name().to_string()),
            Err(e) => return Err(e.to_string()),
        }
    }
    Ok(names)
}

/// The contents of a member of a ZIP archive, read with the zip crate
/// (`ZipArchive::new`, `by_name`, then reading it whole). The bytes, or the
/// error text, are named.
#[verifier::external_body]
fn zip_member_bytes(body: &Vec<u8>, name: &str) -> (r: Result<Vec<u8>, String>)
    ensures
        match (r, zip_member(body@, name@)) {
            (Ok(v), Ok(s)) => v@ == s,
            (Err(e), Err(t)) => e@ == t,
            _ => false,
        },
{
    let mut archive = match zip::ZipArchive::new(std::io::Cursor::new(body)) {
        Ok(a) => a,
        Err(e) => return Err(e.to_string()),
    };
    let mut file = match archive.by_name(name) {
        Ok(f) => f,
        Err(e) => return Err(e.to_string()),
    };
    let mut out = Vec::new();
    match std::io::Read::read_to_end(&mut file, &mut out) {
        Ok(_) => Ok(out),
        Err(e) => Err(e.to_string()),
    }
}

/// The last of `names` that ends with `suffix`, or the empty text when none does.
pub open spec fn last_ending_with(names: Seq<Seq<char>>, suffix: Seq<char>) -> Seq<char>
    decreases names.len(),
{
    if names.len() == 0 {
        Seq::empty()
    } else if suffix.is_suffix_of(names.last()) {
        names.last()
    } else {
        last_ending_with(names.drop_last(), suffix)
    }
}

fn ends_with(s: &str, suffix: &str) -> (r: bool)
    ensures
        r == suffix@.is_suffix_of(s@),
{
    let v = chars_of(s);
    let p = chars_of(suffix);
    if p.len() > v.len() {
        return false;
    }
    let off = v.len() - p.len();
    let mut i: usize = 0;
    while i < p.len()
        invariant
            v@ == s@,
            p@ == suffix@,
            off + p@.len() == v@.len(),
            v@.len() == v.len(),
            i <= p@.len(),
            forall|k: int| 0 <= k < i ==> v@[off + k] == p@[k],
        decreases p@.len() - i,
    {
        if v[off + i] != p[i] {
            proof {
                assert(v@.subrange(off as int, v@.len() as int)[i as int] != p@[i as int]);
                assert(!(p@ =~= v@.subrange(off as int, v@.len() as int)));
            }
            return false;
        }
        i = i + 1;
    }
    proof {
        assert(p@ =~= v@.subrange(off as int, v@.len() as int));
    }
    true
}

/// The name of the archive member that holds `name`: the last one that ends with it.
pub fn pick_member(names: &Vec<String>, name: &str) -> (r: String)
    ensures
        r@ == last_ending_with(views(names@), name@),
{
    let mut found = String::new();
    let mut i: usize = 0;
    proof {
        assert(views(names@).take(0) =~= Seq::<Seq<char>>::empty());
    }
    while i < names.len()
        invariant
            i <= names@.len(),
            last_ending_with(views(names@.take(i as int)), name@) == found@,
        decreases names@.len() - i,
    {
        proof {
            assert(views(names@.take(i + 1)).drop_last() =~= views(names@.take(i as int)));
            assert(views(names@.take(i + 1)).last() == names@[i as int]@);
        }
        if ends_with(names[i].as_str(), name) {
            found = names[i].clone();
        }
        i = i + 1;
    }
    proof {
        assert(names@.take(names@.len() as int) =~= names@);
    }
    found
}

/// A freshly downloaded archive, to be written to its local copy.
pub struct Saver {
    pub body: Vec<u8>,
}

impl Saver {
    /// The archive that the saved copy holds.
    pub fn into_data(self) -> (r: GeoData)
        ensures
            r.body@ == self.body@,
    {
        GeoData::new(self.body)
    }
}

/// A downloaded geo database archive (ZIP bytes).
pub struct GeoData {
    pub body: Vec<u8>,
}

impl GeoData {
    /// The archive of the given bytes.
    pub fn new(body: Vec<u8>) -> (r: Self)
        ensures
            r.body@ == body@,
    {
        GeoData { body }
    }

    /// The contents of the (last) member whose name ends with `name`.
    pub fn member(&self, name: &str) -> (r: Result<Vec<u8>, AppError>)
        ensures
            match zip_names(self.body@) {
                Err(t) => r matches Err(AppError::FileError(m)) && m@ == t,
                Ok(names) => match (r, zip_member(self.body@, last_ending_with(names, name@))) {
                    (Ok(v), Ok(s)) => v@ == s,
                    (Err(e), Err(t)) => e matches AppError::FileError(m) && m@ == t,
                    _ => false,
                },
            },
    {
        let names = match zip_member_names(&self.body) {
            Ok(n) => n,
            Err(e) => return Err(AppError::FileError(e)),
        };
        let filename = pick_member(&names, name);
        match zip_member_bytes(&self.body, filename.as_str()) {
            Ok(v) => Ok(v),
            Err(e) => Err(AppError::FileError(e)),
        }
    }
}

} // verus!
