use vstd::prelude::*;

use crate::error::AppError;

verus! {

broadcast use vstd::string::group_string_axioms;

/// time's `OffsetDateTime`, carried as an opaque value.
#[verifier::external_type_specification]
#[verifier::external_body]
pub struct ExOffsetDateTime(time::OffsetDateTime);

/// croner's `Cron`, a parsed schedule, carried as an opaque value.
#[verifier::external_type_specification]
#[verifier::external_body]
pub struct ExCron(croner::Cron);

/// time's `UtcOffset`, carried as an opaque value.
#[verifier::external_type_specification]
#[verifier::external_body]
pub struct ExUtcOffset(time::UtcOffset);

/// Severity of a component's state, from best to worst.
#[derive(Copy, Clone, Debug, PartialEq, Eq, Structural)]
pub enum StatusCode {
    Okay,
    Warning,
    Error,
    Disaster,
}

impl Default for StatusCode {
    fn default() -> (r: Self)
        ensures
            r == StatusCode::Okay,
    {
        StatusCode::Okay
    }
}

impl StatusCode {
    /// The number of the code: 0 for ok up to 3 for disaster.
    pub open spec fn spec_code(self) -> i32 {
        match self {
            StatusCode::Okay => 0,
            StatusCode::Warning => 1,
            StatusCode::Error => 2,
            StatusCode::Disaster => 3,
        }
    }

    pub open spec fn spec_meaning(self) -> Seq<char> {
        match self {
            StatusCode::Okay => "ok"@,
            StatusCode::Warning => "warning"@,
            StatusCode::Error => "error"@,
            StatusCode::Disaster => "disaster"@,
        }
    }

    /// The word for the code.
    pub fn meaning(self) -> (r: &'static str)
        ensures
            r@ == self.spec_meaning(),
    {
        match self {
            StatusCode::Okay => "ok",
            StatusCode::Warning => "warning",
            StatusCode::Error => "error",
            StatusCode::Disaster => "disaster",
        }
    }

    /// The number the code is serialized as.
    pub fn code(self) -> (r: i32)
        ensures
            r == self.spec_code(),
    {
        match self {
            StatusCode::Okay => 0,
            StatusCode::Warning => 1,
            StatusCode::Error => 2,
            StatusCode::Disaster => 3,
        }
    }

    /// The code with the given number; numbers other than 0 to 3 are unknown.
    pub fn from_code(n: i32) -> (r: Option<StatusCode>)
        ensures
            r matches Some(c) ==> c.spec_code() == n,
            r is None <==> !(0 <= n <= 3),
    {
        match n {
            0 => Some(StatusCode::Okay),
            1 => Some(StatusCode::Warning),
            2 => Some(StatusCode::Error),
            3 => Some(StatusCode::Disaster),
            _ => None,
        }
    }
}

/// Reading back the number of a code gives the code.
pub proof fn law_status_code_roundtrip(c: StatusCode)
    ensures
        0 <= c.spec_code() <= 3,
        forall|d: StatusCode| d.spec_code() == c.spec_code() ==> d == c,
{
}

/// A state: its severity, the word for it, and a message.
#[derive(Clone, Debug)]
pub struct Status {
    pub status_code: StatusCode,
    pub status_meaning: String,
    pub message: String,
}

impl Status {
    /// Whether this is the state of the given severity, with the word for that
    /// severity, and the given message.
    pub open spec fn is(self, code: StatusCode, message: Seq<char>) -> bool {
        &&& self.status_code == code
        &&& self.status_meaning@ == code.spec_meaning()
        &&& self.message@ == message
    }
}

impl Default for Status {
    fn default() -> (r: Self)
        ensures
            r.status_code == StatusCode::Okay,
            r.status_meaning@ == Seq::<char>::empty(),
            r.message@ == Seq::<char>::empty(),
    {
        Status { status_code: StatusCode::Okay, status_meaning: String::new(), message: String::new() }
    }
}

impl Status {
    /// A state of the given severity, with its meaning and a message.
    pub fn new(status_code: StatusCode, message: String) -> (r: Self)
        ensures
            r.status_code == status_code,
            r.status_meaning@ == status_code.spec_meaning(),
            r.message == message,
    {
        Self { status_code, status_meaning: String::from_str(status_code.meaning()), message }
    }

    /// A healthy state.
    pub fn ok(message: String) -> (r: Self)
        ensures
            r.status_code == StatusCode::Okay,
            r.status_meaning@ == StatusCode::Okay.spec_meaning(),
            r.message == message,
    {
        Self::new(StatusCode::Okay, message)
    }

    /// A degraded state.
    pub fn warning(message: String) -> (r: Self)
        ensures
            r.status_code == StatusCode::Warning,
            r.status_meaning@ == StatusCode::Warning.spec_meaning(),
            r.message == message,
    {
        Self::new(StatusCode::Warning, message)
    }

    /// A failed state.
    pub fn error(message: String) -> (r: Self)
        ensures
            r.status_code == StatusCode::Error,
            r.status_meaning@ == StatusCode::Error.spec_meaning(),
            r.message == message,
    {
        Self::new(StatusCode::Error, message)
    }

    /// The state of a list that was never loaded.
    pub fn never_updated() -> (r: Self)
        ensures
            r.status_code == StatusCode::Warning,
            r.status_meaning@ == "never updated"@,
            r.message@ == "list has never been updated"@,
    {
        Self {
            status_code: StatusCode::Warning,
            status_meaning: String::from_str("never updated"),
            message: String::from_str("list has never been updated"),
        }
    }

    /// A state that needs attention at once.
    pub fn disaster(message: String) -> (r: Self)
        ensures
            r.status_code == StatusCode::Disaster,
            r.status_meaning@ == StatusCode::Disaster.spec_meaning(),
            r.message == message,
    {
        Self::new(StatusCode::Disaster, message)
    }

    /// A copy of the state.
    pub fn copied(&self) -> (r: Self)
        ensures
            r == *self,
    {
        Status {
            status_code: self.status_code,
            status_meaning: self.status_meaning.clone(),
            message: self.message.clone(),
        }
    }
}

/// When a component was last refreshed and when it is refreshed next.
pub struct UpdateStatus {
    pub last_update: Option<time::OffsetDateTime>,
    pub next_update: Option<time::OffsetDateTime>,
}

impl Default for UpdateStatus {
    fn default() -> (r: Self)
        ensures
            r.last_update is None,
            r.next_update is None,
    {
        UpdateStatus { last_update: None, next_update: None }
    }
}

impl UpdateStatus {
    /// A component refreshed at `now`, next due at `next_update`.
    pub fn update_new(next_update: Option<time::OffsetDateTime>, now: time::OffsetDateTime) -> (r: Self)
        ensures
            r.last_update == Some(now),
            r.next_update == next_update,
    {
        Self { last_update: Some(now), next_update }
    }

    /// Records a refresh at `now`, next due at `next_update`.
    pub fn update(&mut self, next_update: Option<time::OffsetDateTime>, now: time::OffsetDateTime)
        ensures
            final(self).last_update == Some(now),
            final(self).next_update == next_update,
    {
        self.last_update = Some(now);
        self.next_update = next_update;
    }
}

/// The state of one component and its refresh times.
pub struct ComponentStatus {
    pub status: Status,
    pub update: UpdateStatus,
}

impl Default for ComponentStatus {
    fn default() -> (r: Self)
        ensures
            r.status.status_code == StatusCode::Okay,
            r.status.status_meaning@ == Seq::<char>::empty(),
            r.status.message@ == Seq::<char>::empty(),
            r.update.last_update is None,
            r.update.next_update is None,
    {
        ComponentStatus { status: Status::default(), update: UpdateStatus::default() }
    }
}

impl ComponentStatus {
    /// Component is healthy and has just been refreshed.
    pub fn ok_new(next_update: Option<time::OffsetDateTime>, now: time::OffsetDateTime) -> (r: Self)
        ensures
            r.status.status_code == StatusCode::Okay,
            r.status.status_meaning@ == "ok"@,
            r.status.message@ == "Component is up-to-date"@,
            r.update.last_update == Some(now),
            r.update.next_update == next_update,
    {
        Self {
            status: Status::ok(String::from_str("Component is up-to-date")),
            update: UpdateStatus::update_new(next_update, now),
        }
    }

    /// Marks the component healthy; its refresh times stay.
    pub fn ok(&mut self, message: String)
        ensures
            final(self).status.status_code == StatusCode::Okay,
            final(self).status.status_meaning@ == "ok"@,
            final(self).status.message == message,
            final(self).update == old(self).update,
    {
        self.status = Status::ok(message);
    }

    /// Marks the component degraded; its refresh times stay.
    pub fn warning(&mut self, message: String)
        ensures
            final(self).status.status_code == StatusCode::Warning,
            final(self).status.status_meaning@ == "warning"@,
            final(self).status.message == message,
            final(self).update == old(self).update,
    {
        self.status = Status::warning(message);
    }

    /// Marks the component failed; its refresh times stay.
    pub fn error(&mut self, message: String)
        ensures
            final(self).status.status_code == StatusCode::Error,
            final(self).status.status_meaning@ == "error"@,
            final(self).status.message == message,
            final(self).update == old(self).update,
    {
        self.status = Status::error(message);
    }

    /// Marks the component as needing attention; its refresh times stay.
    pub fn disaster(&mut self, message: String)
        ensures
            final(self).status.status_code == StatusCode::Disaster,
            final(self).status.status_meaning@ == "disaster"@,
            final(self).status.message == message,
            final(self).update == old(self).update,
    {
        self.status = Status::disaster(message);
    }
}

/// The state of the service and of each of its components.
pub struct AppStatus {
    pub overall: Status,
    pub locations: ComponentStatus,
    pub asns: ComponentStatus,
    pub geo: ComponentStatus,
    pub blocklist: ComponentStatus,
}

/// The most severe of the four component states; the last one among equally severe ones.
pub open spec fn spec_worst(a: Status, b: Status, c: Status, d: Status) -> Status {
    let ab = if b.status_code.spec_code() >= a.status_code.spec_code() { b } else { a };
    let abc = if c.status_code.spec_code() >= ab.status_code.spec_code() { c } else { ab };
    if d.status_code.spec_code() >= abc.status_code.spec_code() { d } else { abc }
}

/// Law of the overall status: the worst of four states is at least as severe
/// as each of them and is one of them; among equally severe states it is the
/// last one.
pub proof fn law_worst(a: Status, b: Status, c: Status, d: Status)
    ensures
        ({
            let w = spec_worst(a, b, c, d);
            &&& w.status_code.spec_code() >= a.status_code.spec_code()
            &&& w.status_code.spec_code() >= b.status_code.spec_code()
            &&& w.status_code.spec_code() >= c.status_code.spec_code()
            &&& w.status_code.spec_code() >= d.status_code.spec_code()
            &&& w == a || w == b || w == c || w == d
            &&& d.status_code.spec_code() >= w.status_code.spec_code() ==> w == d
            &&& c.status_code.spec_code() >= w.status_code.spec_code() && d.status_code.spec_code() < w.status_code.spec_code() ==> w == c
            &&& b.status_code.spec_code() >= w.status_code.spec_code() && c.status_code.spec_code() < w.status_code.spec_code()
                && d.status_code.spec_code() < w.status_code.spec_code() ==> w == b
        }),
{
}

impl AppStatus {
    /// The most severe status across all components.
    pub fn worst(&self) -> (r: Status)
        ensures
            r == spec_worst(self.locations.status, self.asns.status, self.geo.status, self.blocklist.status),
            r.status_code.spec_code() >= self.locations.status.status_code.spec_code(),
            r.status_code.spec_code() >= self.asns.status.status_code.spec_code(),
            r.status_code.spec_code() >= self.geo.status.status_code.spec_code(),
            r.status_code.spec_code() >= self.blocklist.status.status_code.spec_code(),
            r == self.locations.status || r == self.asns.status || r == self.geo.status || r == self.blocklist.status,
    {
        proof {
            law_worst(self.locations.status, self.asns.status, self.geo.status, self.blocklist.status);
        }
        let mut best = &self.locations.status;
        if self.asns.status.status_code.code() >= best.status_code.code() {
            best = &self.asns.status;
        }
        if self.geo.status.status_code.code() >= best.status_code.code() {
            best = &self.geo.status;
        }
        if self.blocklist.status.status_code.code() >= best.status_code.code() {
            best = &self.blocklist.status;
        }
        best.copied()
    }

    /// Marks all components as failed with the same message.
    pub fn iplist_error(&mut self, message: &str)
        ensures
            final(self).overall == old(self).overall,
            final(self).locations.status.status_code == StatusCode::Error,
            final(self).asns.status.status_code == StatusCode::Error,
            final(self).geo.status.status_code == StatusCode::Error,
            final(self).blocklist.status.status_code == StatusCode::Error,
            final(self).locations.status.message@ == message@,
            final(self).asns.status.message@ == message@,
            final(self).geo.status.message@ == message@,
            final(self).blocklist.status.message@ == message@,
            final(self).locations.status.status_meaning@ == "error"@,
            final(self).asns.status.status_meaning@ == "error"@,
            final(self).geo.status.status_meaning@ == "error"@,
            final(self).blocklist.status.status_meaning@ == "error"@,
            final(self).locations.update == old(self).locations.update,
            final(self).asns.update == old(self).asns.update,
            final(self).geo.update == old(self).geo.update,
            final(self).blocklist.update == old(self).blocklist.update,
    {
        self.locations.error(String::from_str(message));
        self.asns.error(String::from_str(message));
        self.geo.error(String::from_str(message));
        self.blocklist.error(String::from_str(message));
    }

    /// Marks the geo list components as healthy with the same message; the
    /// blocklist keeps its state.
    pub fn iplist_ok(&mut self, message: &str)
        ensures
            final(self).overall == old(self).overall,
            final(self).blocklist == old(self).blocklist,
            final(self).locations.status.status_code == StatusCode::Okay,
            final(self).asns.status.status_code == StatusCode::Okay,
            final(self).geo.status.status_code == StatusCode::Okay,
            final(self).locations.status.message@ == message@,
            final(self).asns.status.message@ == message@,
            final(self).geo.status.message@ == message@,
            final(self).locations.status.status_meaning@ == "ok"@,
            final(self).asns.status.status_meaning@ == "ok"@,
            final(self).geo.status.status_meaning@ == "ok"@,
            final(self).locations.update == old(self).locations.update,
            final(self).asns.update == old(self).asns.update,
            final(self).geo.update == old(self).geo.update,
    {
        self.locations.ok(String::from_str(message));
        self.asns.ok(String::from_str(message));
        self.geo.ok(String::from_str(message));
    }
}

impl Default for AppStatus {
    fn default() -> (r: Self)
        ensures
            r.overall.status_code == StatusCode::Warning,
            r.overall.status_meaning@ == "never updated"@,
            r.overall.message@ == "list has never been updated"@,
            r.locations.status.status_code == StatusCode::Okay,
            r.asns.status.status_code == StatusCode::Okay,
            r.geo.status.status_code == StatusCode::Okay,
            r.blocklist.status.status_code == StatusCode::Okay,
            r.locations.update.last_update is None && r.locations.update.next_update is None,
            r.asns.update.last_update is None && r.asns.update.next_update is None,
            r.geo.update.last_update is None && r.geo.update.next_update is None,
            r.blocklist.update.last_update is None && r.blocklist.update.next_update is None,
    {
        Self {
            overall: Status::never_updated(),
            locations: ComponentStatus::default(),
            asns: ComponentStatus::default(),
            geo: ComponentStatus::default(),
            blocklist: ComponentStatus::default(),
        }
    }
}

/// What `croner` answers to a cron pattern, read with seconds required and
/// day-of-month and day-of-week combined: `None` when it accepts the pattern,
/// else the text of its error.
pub uninterp spec fn cron_rejection(pattern: Seq<char>) -> Option<Seq<char>>;

/// The schedule that `croner` builds from a pattern it accepts, read with
/// seconds required and day-of-month and day-of-week combined.
pub uninterp spec fn parsed_cron(pattern: Seq<char>) -> croner::Cron;

/// Parses a cron pattern with `croner`'s `CronParser`, seconds required and
/// day-of-month and day-of-week combined. Whether it is accepted, the error
/// text and the schedule built are named, not stated.
#[verifier::external_body]
fn parse_cron(pattern: &str) -> (r: Result<croner::Cron, String>)
    ensures
        r is Ok <==> cron_rejection(pattern@) is None,
        r matches Err(m) ==> cron_rejection(pattern@) == Some(m@),
        r matches Ok(c) ==> c == parsed_cron(pattern@),
{
    match croner::parser::CronParser::builder()
        .seconds(croner::parser::Seconds::Required)
        .dom_and_dow(true)
        .build()
        .parse(pattern) {
        Ok(c) => Ok(c),
        Err(e) => Err(e.to_string()),
    }
}

/// The refresh schedules of the blocklist and of the geo lists, each with the
/// pattern it was read from.
pub struct Schedule {
    blocklist_pattern: String,
    blocklist_cron: croner::Cron,
    iplist_pattern: String,
    iplist_cron: croner::Cron,
}

impl Schedule {
    /// Each schedule is the one `croner` builds from its pattern.
    #[verifier::type_invariant]
    spec fn schedules_match_patterns(self) -> bool {
        &&& self.blocklist_cron == parsed_cron(self.blocklist_pattern@)
        &&& self.iplist_cron == parsed_cron(self.iplist_pattern@)
    }

    /// The pattern of the blocklist's schedule.
    pub closed spec fn blocklist_pattern(self) -> Seq<char> {
        self.blocklist_pattern@
    }

    /// The pattern of the geo lists' schedule.
    pub closed spec fn iplist_pattern(self) -> Seq<char> {
        self.iplist_pattern@
    }

    /// Both schedules, if both patterns are accepted.
    pub fn new(blocklist_cron: &str, iplist_cron: &str) -> (r: Result<Self, AppError>)
        ensures
            r is Ok <==> cron_rejection(blocklist_cron@) is None && cron_rejection(iplist_cron@) is None,
            r matches Err(AppError::ParseError(m)) ==> (cron_rejection(blocklist_cron@) == Some(m@)
                || (cron_rejection(blocklist_cron@) is None && cron_rejection(iplist_cron@) == Some(m@))),
            r is Err ==> r matches Err(AppError::ParseError(_)),
            r matches Ok(s) ==> s.blocklist_pattern() == blocklist_cron@ && s.iplist_pattern() == iplist_cron@,
    {
        let b = Self::build(blocklist_cron)?;
        let i = Self::build(iplist_cron)?;
        Ok(Self {
            blocklist_pattern: blocklist_cron.to_string(),
            blocklist_cron: b,
            iplist_pattern: iplist_cron.to_string(),
            iplist_cron: i,
        })
    }

    /// Reads a cron pattern whose first field is the seconds; a rejected
    /// pattern is a parse error carrying `croner`'s message.
    pub fn build(cron: &str) -> (r: Result<croner::Cron, AppError>)
        ensures
            r is Ok <==> cron_rejection(cron@) is None,
            r matches Err(e) ==> e matches AppError::ParseError(m) && cron_rejection(cron@) == Some(m@),
            r matches Ok(c) ==> c == parsed_cron(cron@),
    {
        match parse_cron(cron) {
            Ok(c) => Ok(c),
            Err(m) => Err(AppError::ParseError(m)),
        }
    }
}

/// Whether croner can report the instant at Unix time `timestamp`, seen at
/// `seconds` east of UTC, as an occurrence of `pattern` (seconds required,
/// day-of-month and day-of-week combined): the wall-clock time it shows
/// matches the pattern, or it is the first wall-clock time after a
/// daylight-saving gap that swallowed a matching one.
pub uninterp spec fn cron_fires_at(pattern: Seq<char>, timestamp: i64, seconds: i32) -> bool;

/// The next time `cron` fires after the current local time (chrono's
/// `Local::now`), by croner's `find_next_occurrence`, as a Unix timestamp and
/// the offset from UTC in seconds. Which occurrence comes back depends on the
/// clock and on the local time zone, so it is not named; what holds of every
/// outcome is that croner reports it as an occurrence of the pattern that
/// `cron` was built from, and chrono's bound on a `FixedOffset`: strictly
/// within one day of UTC.
#[verifier::external_body]
#[allow(unused_variables)]
fn next_occurrence(cron: &croner::Cron, pattern: &str) -> (r: Option<(i64, i32)>)
    requires
        *cron == parsed_cron(pattern@),
    ensures
        r matches Some((timestamp, seconds)) ==> -86400 < seconds < 86400
            && cron_fires_at(pattern@, timestamp, seconds),
{
    match cron.find_next_occurrence(&chrono::Local::now(), false) {
        Ok(next) => Some((next.timestamp(), next.offset().local_minus_utc())),
        Err(_) => None,
    }
}

/// What time's `OffsetDateTime::from_unix_timestamp` gives for a timestamp:
/// the instant in UTC, or `None` for its range error.
pub uninterp spec fn unix_instant_at(timestamp: i64) -> Option<time::OffsetDateTime>;

/// What time's `UtcOffset::from_whole_seconds` gives for a number of seconds.
pub uninterp spec fn utc_offset_of(seconds: i32) -> Option<time::UtcOffset>;

/// What time's `OffsetDateTime::checked_to_offset` gives: the same instant
/// seen in another offset, or `None` when that falls out of its range.
pub uninterp spec fn offset_shift(instant: time::OffsetDateTime, offset: time::UtcOffset) -> Option<time::OffsetDateTime>;

/// The instant at a Unix timestamp, seen in the offset of that many seconds
/// from UTC; `None` where one of the three steps fails.
pub open spec fn local_instant(timestamp: i64, seconds: i32) -> Option<time::OffsetDateTime> {
    match unix_instant_at(timestamp) {
        Some(instant) => match utc_offset_of(seconds) {
            Some(offset) => offset_shift(instant, offset),
            None => None,
        },
        None => None,
    }
}

/// time's `OffsetDateTime::from_unix_timestamp`, `None` for its range error.
/// Its range depends on the crate's `large-dates` feature, so when it fails
/// is left to the name.
#[verifier::external_body]
fn unix_instant(timestamp: i64) -> (r: Option<time::OffsetDateTime>)
    ensures
        r == unix_instant_at(timestamp),
{
    time::OffsetDateTime::from_unix_timestamp(timestamp).ok()
}

/// time's `UtcOffset::from_whole_seconds`, `None` for its range error: it
/// accepts exactly the offsets up to 25:59:59 either side of UTC.
#[verifier::external_body]
fn utc_offset(seconds: i32) -> (r: Option<time::UtcOffset>)
    ensures
        r == utc_offset_of(seconds),
        r is Some <==> -93599 <= seconds <= 93599,
{
    time::UtcOffset::from_whole_seconds(seconds).ok()
}

/// time's `OffsetDateTime::checked_to_offset`: the same instant seen in
/// another offset, `None` when that falls out of the supported range.
#[verifier::external_body]
fn in_offset(instant: time::OffsetDateTime, offset: time::UtcOffset) -> (r: Option<time::OffsetDateTime>)
    ensures
        r == offset_shift(instant, offset),
{
    instant.checked_to_offset(offset)
}

/// The instant at Unix time `timestamp`, seen `seconds` east of UTC; `None`
/// when time cannot represent the instant, the offset, or the instant in that
/// offset.
pub fn local_time(timestamp: i64, seconds: i32) -> (r: Option<time::OffsetDateTime>)
    ensures
        r == local_instant(timestamp, seconds),
        !(-93599 <= seconds <= 93599) ==> r is None,
{
    let instant = unix_instant(timestamp)?;
    let offset = utc_offset(seconds)?;
    in_offset(instant, offset)
}

impl Schedule {
    /// When the schedule read from `pattern` fires next, in the offset of the
    /// local time; `None` when croner finds no occurrence or time cannot
    /// represent it. Which occurrence croner picks depends on the clock.
    fn next_run(cron: &croner::Cron, pattern: &String) -> (r: Option<time::OffsetDateTime>)
        requires
            *cron == parsed_cron(pattern@),
        ensures
            r is Some ==> exists|timestamp: i64, seconds: i32|
                -86400 < seconds < 86400 && cron_fires_at(pattern@, timestamp, seconds)
                && r == #[trigger] local_instant(timestamp, seconds),
    {
        let (timestamp, seconds) = next_occurrence(cron, pattern.as_str())?;
        local_time(timestamp, seconds)
    }

    /// When the blocklist is refreshed next: an occurrence of its own pattern,
    /// seen in the local offset.
    pub fn get_next_run_blocklist(&self) -> (r: Option<time::OffsetDateTime>)
        ensures
            r is Some ==> exists|timestamp: i64, seconds: i32|
                -86400 < seconds < 86400 && cron_fires_at(self.blocklist_pattern(), timestamp, seconds)
                && r == #[trigger] local_instant(timestamp, seconds),
    {
        proof { use_type_invariant(self); }
        Self::next_run(&self.blocklist_cron, &self.blocklist_pattern)
    }

    /// When the geo lists are refreshed next: an occurrence of their own
    /// pattern, seen in the local offset.
    pub fn get_next_run_iplist(&self) -> (r: Option<time::OffsetDateTime>)
        ensures
            r is Some ==> exists|timestamp: i64, seconds: i32|
                -86400 < seconds < 86400 && cron_fires_at(self.iplist_pattern(), timestamp, seconds)
                && r == #[trigger] local_instant(timestamp, seconds),
    {
        proof { use_type_invariant(self); }
        Self::next_run(&self.iplist_cron, &self.iplist_pattern)
    }
}

} // verus!
