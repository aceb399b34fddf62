use chrono::Datelike;
use vstd::prelude::*;

verus! {

/// One stored chat turn. The embedding holds each component as the bit
/// pattern of a binary32 number, so the store carries it without reading it.
pub struct ChatModel {
    pub role: String,
    pub content: String,
    pub hash: String,
    pub embedding: Vec<u32>,
}

/// The mathematical value of a `ChatModel`.
pub struct ChatView {
    pub role: Seq<char>,
    pub content: Seq<char>,
    pub hash: Seq<char>,
    pub embedding: Seq<u32>,
}

impl View for ChatModel {
    type V = ChatView;

    open spec fn view(&self) -> ChatView {
        ChatView {
            role: self.role@,
            content: self.content@,
            hash: self.hash@,
            embedding: self.embedding@,
        }
    }
}

impl Clone for ChatModel {
    /// A copy that keeps every field.
    fn clone(&self) -> (r: ChatModel)
        ensures
            r@ == self@,
    {
        ChatModel {
            role: self.role.clone(),
            content: self.content.clone(),
            hash: self.hash.clone(),
            embedding: self.embedding.clone(),
        }
    }
}

/// The cache key of a message saved for a user: its identity, then the user.
pub open spec fn cache_key(hash: Seq<char>, user: Seq<char>) -> (Seq<char>, Seq<char>) {
    (hash, user)
}

struct CacheEntry {
    user: String,
    chat: ChatModel,
}

spec fn entry_key(e: CacheEntry) -> (Seq<char>, Seq<char>) {
    cache_key(e.chat.hash@, e.user@)
}

spec fn keys_unique(s: Seq<CacheEntry>) -> bool {
    forall|i: int, j: int|
        0 <= i < s.len() && 0 <= j < s.len() && entry_key(#[trigger] s[i]) == entry_key(
            #[trigger] s[j],
        ) ==> i == j
}

spec fn entries_map(s: Seq<CacheEntry>) -> Map<(Seq<char>, Seq<char>), ChatView> {
    Map::new(
        |k: (Seq<char>, Seq<char>)| exists|i: int| 0 <= i < s.len() && entry_key(s[i]) == k,
        |k: (Seq<char>, Seq<char>)|
            s[choose|i: int| 0 <= i < s.len() && entry_key(s[i]) == k].chat@,
    )
}

proof fn lemma_entries_map_at(s: Seq<CacheEntry>, i: int)
    requires
        keys_unique(s),
        0 <= i < s.len(),
    ensures
        entries_map(s).contains_key(entry_key(s[i])),
        entries_map(s)[entry_key(s[i])] == s[i].chat@,
{
    let k = entry_key(s[i]);
    assert(exists|j: int| 0 <= j < s.len() && entry_key(s[j]) == k);
    let j = choose|j: int| 0 <= j < s.len() && entry_key(s[j]) == k;
    assert(s[j] == s[i]);
}

proof fn lemma_replace_entry(s: Seq<CacheEntry>, i: int, e: CacheEntry)
    requires
        keys_unique(s),
        keys_unique(s.update(i, e)),
        0 <= i < s.len(),
        entry_key(s[i]) == entry_key(e),
    ensures
        entries_map(s.update(i, e)) == entries_map(s).insert(entry_key(e), e.chat@),
{
    let t = s.update(i, e);
    let m = entries_map(s).insert(entry_key(e), e.chat@);
    assert forall|k: (Seq<char>, Seq<char>)| #[trigger] entries_map(t).contains_key(k) <==> m.contains_key(k) by {
        if entries_map(t).contains_key(k) {
            let j = choose|j: int| 0 <= j < t.len() && entry_key(t[j]) == k;
            if j != i {
                assert(entry_key(s[j]) == k);
            }
        }
        if m.contains_key(k) && k != entry_key(e) {
            let j = choose|j: int| 0 <= j < s.len() && entry_key(s[j]) == k;
            assert(entry_key(t[j]) == k);
        }
        if k == entry_key(e) {
            assert(entry_key(t[i]) == k);
        }
    }
    assert forall|k: (Seq<char>, Seq<char>)| #[trigger] entries_map(t).contains_key(k) implies entries_map(t)[k] == m[k] by {
        let j = choose|j: int| 0 <= j < t.len() && entry_key(t[j]) == k;
        lemma_entries_map_at(t, j);
        if j != i {
            assert(t[j] == s[j]);
            assert(entry_key(t[j]) != entry_key(t[i]));
            lemma_entries_map_at(s, j);
        }
    }
    assert(entries_map(t) =~= m);
}

proof fn lemma_push_entry(s: Seq<CacheEntry>, e: CacheEntry)
    requires
        keys_unique(s),
        keys_unique(s.push(e)),
    ensures
        entries_map(s.push(e)) == entries_map(s).insert(entry_key(e), e.chat@),
{
    let t = s.push(e);
    let n = s.len() as int;
    let m = entries_map(s).insert(entry_key(e), e.chat@);
    assert forall|k: (Seq<char>, Seq<char>)| #[trigger] entries_map(t).contains_key(k) <==> m.contains_key(k) by {
        if entries_map(t).contains_key(k) {
            let j = choose|j: int| 0 <= j < t.len() && entry_key(t[j]) == k;
            if j != n {
                assert(entry_key(s[j]) == k);
            }
        }
        if m.contains_key(k) && k != entry_key(e) {
            let j = choose|j: int| 0 <= j < s.len() && entry_key(s[j]) == k;
            assert(entry_key(t[j]) == k);
        }
        if k == entry_key(e) {
            assert(entry_key(t[n]) == k);
        }
    }
    assert forall|k: (Seq<char>, Seq<char>)| #[trigger] entries_map(t).contains_key(k) implies entries_map(t)[k] == m[k] by {
        let j = choose|j: int| 0 <= j < t.len() && entry_key(t[j]) == k;
        lemma_entries_map_at(t, j);
        if j != n {
            assert(t[j] == s[j]);
            assert(t[n] == e);
            assert(entry_key(t[j]) != entry_key(t[n]));
            lemma_entries_map_at(s, j);
        }
    }
    assert(entries_map(t) =~= m);
}

/// What an operation of the archive can fail with.
#[derive(PartialEq, Eq, Structural, Clone, Copy, Debug)]
pub enum RepoError {
    /// The identity is neither cached nor in the current day's file.
    NotFound,
    /// A directory or a file could not be created or written.
    Storage,
    /// A day file exists but its contents cannot be read as messages.
    Serialization,
    /// The embeddings provider failed.
    Upstream,
}

/// The cache after the messages of one day file, in file order, were put in
/// it for `user`: a later message wins over an earlier one with its identity.
pub open spec fn merged(
    m: Map<(Seq<char>, Seq<char>), ChatView>,
    user: Seq<char>,
    day: Seq<ChatModel>,
) -> Map<(Seq<char>, Seq<char>), ChatView>
    decreases day.len(),
{
    if day.len() == 0 {
        m
    } else {
        merged(m, user, day.drop_last()).insert(cache_key(day.last().hash@, user), day.last()@)
    }
}

/// A day file's contents after `chat` was saved into it.
pub fn appended(day: Vec<ChatModel>, chat: ChatModel) -> (r: Vec<ChatModel>)
    ensures
        r@ == day@.push(chat),
{
    let mut day = day;
    day.push(chat);
    day
}

/// The earliest year that a calendar date of chrono can hold.
pub const MIN_YEAR: i32 = -262143;

/// The latest year that a calendar date of chrono can hold.
pub const MAX_YEAR: i32 = 262142;

pub open spec fn is_leap_year(y: int) -> bool {
    (y % 4 == 0 && y % 100 != 0) || y % 400 == 0
}

pub open spec fn days_in_month(y: int, m: int) -> int {
    if m == 2 {
        if is_leap_year(y) {
            29
        } else {
            28
        }
    } else if m == 4 || m == 6 || m == 9 || m == 11 {
        30
    } else {
        31
    }
}

/// A day of the proleptic Gregorian calendar.
#[derive(PartialEq, Eq, Structural, Clone, Copy, Debug)]
pub struct Date {
    pub year: i32,
    pub month: u32,
    pub day: u32,
}

/// Whether day `a` comes before day `b`.
pub open spec fn date_before(a: Date, b: Date) -> bool {
    a.year < b.year || (a.year == b.year && (a.month < b.month || (a.month == b.month && a.day
        < b.day)))
}

impl Date {
    /// The date exists in the calendar and in chrono's range of years.
    pub open spec fn wf(&self) -> bool {
        MIN_YEAR <= self.year <= MAX_YEAR && 1 <= self.month <= 12 && 1 <= self.day
            <= days_in_month(self.year as int, self.month as int)
    }

    /// The date of that year, month and day, where one exists.
    pub fn from_ymd(year: i32, month: u32, day: u32) -> (r: Option<Date>)
        ensures
            match r {
                Some(d) => d.wf() && d == (Date { year, month, day }),
                None => !(Date { year, month, day }).wf(),
            },
    {
        if year < MIN_YEAR || year > MAX_YEAR || month < 1 || month > 12 || day < 1 {
            return None;
        }
        let leap = (year % 4 == 0 && year % 100 != 0) || year % 400 == 0;
        assert(leap == is_leap_year(year as int));
        let last: u32 = if month == 2 {
            if leap {
                29
            } else {
                28
            }
        } else if month == 4 || month == 6 || month == 9 || month == 11 {
            30
        } else {
            31
        };
        if day > last {
            None
        } else {
            Some(Date { year, month, day })
        }
    }

    /// Whether this day comes before `other`.
    pub fn is_before(&self, other: &Date) -> (r: bool)
        ensures
            r == date_before(*self, *other),
    {
        self.year < other.year || (self.year == other.year && (self.month < other.month || (
        self.month == other.month && self.day < other.day)))
    }
}

pub open spec fn digit(n: int) -> char {
    seq!['0', '1', '2', '3', '4', '5', '6', '7', '8', '9'][n]
}

/// `n` in decimal, zero-padded to two digits (for `n` below 100).
pub open spec fn two_digits(n: int) -> Seq<char> {
    seq![digit(n / 10), digit(n % 10)]
}

/// `n` in decimal, zero-padded to four digits (for `n` below 10000).
pub open spec fn four_digits(n: int) -> Seq<char> {
    two_digits(n / 100) + two_digits(n % 100)
}

/// The text that chrono writes for a date in the format `%Y-%m-%d`.
pub uninterp spec fn ymd_text(year: int, month: int, day: int) -> Seq<char>;

/// What chrono reads as a date from a text in the format `%Y-%m-%d`, as
/// (year, month, day).
pub uninterp spec fn ymd_parsed(s: Seq<char>) -> Option<(int, int, int)>;

/// Relies on chrono's `NaiveDate::from_ymd_opt`, which accepts every date
/// that `wf` admits, and `NaiveDate::format` with `%Y-%m-%d`, which writes a
/// year from 0 to 9999 as four digits and the month and day as two.
#[verifier::external_body]
fn ymd_format(d: &Date) -> (r: String)
    requires
        d.wf(),
    ensures
        r@ == ymd_text(d.year as int, d.month as int, d.day as int),
        0 <= d.year <= 9999 ==> r@ == four_digits(d.year as int) + seq!['-'] + two_digits(
            d.month as int,
        ) + seq!['-'] + two_digits(d.day as int),
{
    let nd = chrono::NaiveDate::from_ymd_opt(d.year, d.month, d.day).unwrap();
    nd.format("%Y-%m-%d").to_string()
}

/// Relies on chrono's `NaiveDate::parse_from_str` with `%Y-%m-%d`: a date it
/// returns is a calendar date within its range of years.
#[verifier::external_body]
fn ymd_parse(s: &String) -> (r: Option<Date>)
    ensures
        match r {
            Some(d) => d.wf() && ymd_parsed(s@) == Some(
                (d.year as int, d.month as int, d.day as int),
            ),
            None => ymd_parsed(s@) is None,
        },
{
    match chrono::NaiveDate::parse_from_str(s, "%Y-%m-%d") {
        Ok(nd) => Some(Date { year: nd.year(), month: nd.month(), day: nd.day() }),
        Err(_) => None,
    }
}

impl Date {
    /// The date written as `YYYY-MM-DD`, as chrono writes it.
    pub fn to_text(&self) -> (r: String)
        requires
            self.wf(),
        ensures
            r@ == ymd_text(self.year as int, self.month as int, self.day as int),
            0 <= self.year <= 9999 ==> r@ == four_digits(self.year as int) + seq!['-']
                + two_digits(self.month as int) + seq!['-'] + two_digits(self.day as int),
    {
        ymd_format(self)
    }

    /// The date that a text in the form `YYYY-MM-DD` names, as chrono reads it.
    pub fn parse(s: &String) -> (r: Option<Date>)
        ensures
            match r {
                Some(d) => d.wf() && ymd_parsed(s@) == Some(
                    (d.year as int, d.month as int, d.day as int),
                ),
                None => ymd_parsed(s@) is None,
            },
    {
        ymd_parse(s)
    }
}

/// The directory that holds a user's day directories.
pub open spec fn user_root_spec(root: Seq<char>, user: Seq<char>) -> Seq<char> {
    root + "/muninn/"@ + user
}

/// `{root}/muninn/{user}`: the directory of a user's day directories.
pub fn user_root(root: &String, user: &String) -> (r: String)
    ensures
        r@ == user_root_spec(root@, user@),
{
    let p = root.clone().concat("/muninn/");
    p.concat(user.as_str())
}

/// `{root}/muninn/{user}/{YYYY-MM-DD}`: the directory of one day.
pub fn day_dir(root: &String, user: &String, date: &Date) -> (r: String)
    requires
        date.wf(),
    ensures
        r@ == user_root_spec(root@, user@) + "/"@ + ymd_text(
            date.year as int,
            date.month as int,
            date.day as int,
        ),
{
    let p = user_root(root, user).concat("/");
    let t = date.to_text();
    p.concat(t.as_str())
}

/// `{root}/muninn/{user}/{YYYY-MM-DD}/messages.json`: the file of one day.
pub fn day_file(root: &String, user: &String, date: &Date) -> (r: String)
    requires
        date.wf(),
    ensures
        r@ == user_root_spec(root@, user@) + "/"@ + ymd_text(
            date.year as int,
            date.month as int,
            date.day as int,
        ) + "/messages.json"@,
{
    day_dir(root, user, date).concat("/messages.json")
}

/// A date as (year, month, day).
pub open spec fn ymd_of(d: Date) -> (int, int, int) {
    (d.year as int, d.month as int, d.day as int)
}

/// Some name of `names` reads as the date `t`.
pub open spec fn some_name_reads_as(names: Seq<String>, t: (int, int, int)) -> bool {
    exists|i: int| 0 <= i < names.len() && ymd_parsed(names[i]@) == Some(t)
}

/// Some date of `days` is `t`.
pub open spec fn some_date_is(days: Seq<Date>, t: (int, int, int)) -> bool {
    exists|j: int| 0 <= j < days.len() && ymd_of(days[j]) == t
}

/// The dates that the names of a user's day directories give, as chrono
/// reads them; a name that is no date is passed over.
pub fn day_folder_dates(names: &Vec<String>) -> (r: Vec<Date>)
    ensures
        forall|j: int| 0 <= j < r@.len() ==> (#[trigger] r@[j]).wf(),
        forall|j: int| 0 <= j < r@.len() ==> some_name_reads_as(names@, ymd_of(#[trigger] r@[j])),
        forall|i: int|
            0 <= i < names@.len() && (#[trigger] ymd_parsed(names@[i]@)) is Some ==> some_date_is(
                r@,
                ymd_parsed(names@[i]@)->0,
            ),
{
    let mut r: Vec<Date> = Vec::new();
    let mut i: usize = 0;
    while i < names.len()
        invariant
            i <= names@.len(),
            forall|j: int| 0 <= j < r@.len() ==> (#[trigger] r@[j]).wf(),
            forall|j: int| 0 <= j < r@.len() ==> some_name_reads_as(names@, ymd_of(#[trigger] r@[j])),
            forall|k: int|
                0 <= k < i && (#[trigger] ymd_parsed(names@[k]@)) is Some ==> some_date_is(
                    r@,
                    ymd_parsed(names@[k]@)->0,
                ),
        decreases names@.len() - i,
    {
        let ghost before = r@;
        match Date::parse(&names[i]) {
            Some(d) => {
                r.push(d);
                proof {
                    let n = before.len() as int;
                    assert(r@[n] == d);
                    assert(ymd_parsed(names@[i as int]@) == Some(ymd_of(r@[n])));
                    assert forall|j: int| 0 <= j < r@.len() implies some_name_reads_as(names@, ymd_of(#[trigger] r@[j])) by {
                        if j < n {
                            assert(r@[j] == before[j]);
                        }
                    }
                    assert forall|k: int|
                        0 <= k < i + 1 && (#[trigger] ymd_parsed(names@[k]@)) is Some implies some_date_is(
                            r@,
                            ymd_parsed(names@[k]@)->0,
                        ) by {
                        if k < i {
                            let t = ymd_parsed(names@[k]@)->0;
                            let j0 = choose|j: int| 0 <= j < before.len() && ymd_of(before[j]) == t;
                            assert(r@[j0] == before[j0]);
                        } else {
                            assert(ymd_of(r@[n]) == ymd_parsed(names@[k]@)->0);
                        }
                    }
                }
            },
            None => {},
        }
        i = i + 1;
    }
    r
}

/// The latest of `days` that comes before `bound`, if one does.
pub fn latest_before(days: &Vec<Date>, bound: &Date) -> (r: Option<Date>)
    ensures
        match r {
            Some(d) => days@.contains(d) && date_before(d, *bound) && forall|j: int|
                0 <= j < days@.len() && date_before(#[trigger] days@[j], *bound) ==> !date_before(
                    d,
                    days@[j],
                ),
            None => forall|j: int| 0 <= j < days@.len() ==> !date_before(#[trigger] days@[j], *bound),
        },
{
    let mut best: Option<Date> = None;
    let mut i: usize = 0;
    while i < days.len()
        invariant
            i <= days@.len(),
            match best {
                Some(d) => days@.contains(d) && date_before(d, *bound) && forall|j: int|
                    0 <= j < i && date_before(#[trigger] days@[j], *bound) ==> !date_before(
                        d,
                        days@[j],
                    ),
                None => forall|j: int| 0 <= j < i ==> !date_before(#[trigger] days@[j], *bound),
            },
        decreases days@.len() - i,
    {
        let d = days[i];
        if d.is_before(bound) {
            match best {
                Some(b) => {
                    if b.is_before(&d) {
                        best = Some(d);
                    }
                },
                None => {
                    best = Some(d);
                },
            }
        }
        i = i + 1;
    }
    best
}

/// The latest of `days` that comes before `bound` (where one does).
pub open spec fn latest_day_before(days: Seq<Date>, bound: Date) -> Date {
    choose|d: Date|
        days.contains(d) && date_before(d, bound) && forall|j: int|
            0 <= j < days.len() && date_before(#[trigger] days[j], bound) ==> !date_before(
                d,
                days[j],
            )
}

/// Some day of `days` comes before `bound`.
pub open spec fn any_before(days: Seq<Date>, bound: Date) -> bool {
    exists|j: int| 0 <= j < days.len() && date_before(#[trigger] days[j], bound)
}

proof fn lemma_latest_exists(days: Seq<Date>, bound: Date)
    requires
        any_before(days, bound),
    ensures
        exists|d: Date|
            days.contains(d) && date_before(d, bound) && forall|j: int|
                0 <= j < days.len() && date_before(#[trigger] days[j], bound) ==> !date_before(
                    d,
                    days[j],
                ),
    decreases days.len(),
{
    let front = days.drop_last();
    let x = days.last();
    if any_before(front, bound) {
        lemma_latest_exists(front, bound);
        let d = choose|d: Date|
            front.contains(d) && date_before(d, bound) && forall|j: int|
                0 <= j < front.len() && date_before(#[trigger] front[j], bound) ==> !date_before(
                    d,
                    front[j],
                );
        let i = choose|i: int| 0 <= i < front.len() && front[i] == d;
        assert(days[i] == d);
        if date_before(x, bound) && date_before(d, x) {
            assert(days[days.len() - 1] == x);
            assert forall|j: int|
                0 <= j < days.len() && date_before(#[trigger] days[j], bound) implies !date_before(x, days[j]) by {
                if j < front.len() {
                    assert(days[j] == front[j]);
                }
            }
        } else {
            assert forall|j: int|
                0 <= j < days.len() && date_before(#[trigger] days[j], bound) implies !date_before(d, days[j]) by {
                if j < front.len() {
                    assert(days[j] == front[j]);
                }
            }
        }
    } else {
        assert(date_before(x, bound)) by {
            let j = choose|j: int| 0 <= j < days.len() && date_before(#[trigger] days[j], bound);
            if j < front.len() {
                assert(days[j] == front[j]);
            }
        }
        assert(days[days.len() - 1] == x);
        assert forall|j: int|
            0 <= j < days.len() && date_before(#[trigger] days[j], bound) implies !date_before(x, days[j]) by {
            if j < front.len() {
                assert(days[j] == front[j]);
            }
        }
    }
}

/// How many of `days` come before `bound`.
pub open spec fn count_before(days: Seq<Date>, bound: Date) -> nat
    decreases days.len(),
{
    if days.len() == 0 {
        0
    } else {
        count_before(days.drop_last(), bound) + if date_before(days.last(), bound) {
            1nat
        } else {
            0nat
        }
    }
}

proof fn lemma_count_before_le(days: Seq<Date>, bound: Date)
    ensures
        count_before(days, bound) <= days.len(),
    decreases days.len(),
{
    if days.len() > 0 {
        lemma_count_before_le(days.drop_last(), bound);
    }
}

/// Fewer days come before `d` than before `b`, where `d` is one of `days`
/// and comes before `b`.
proof fn lemma_count_before_shrinks(days: Seq<Date>, d: Date, b: Date, i: int)
    requires
        0 <= i < days.len(),
        days[i] == d,
        date_before(d, b),
    ensures
        count_before(days, d) < count_before(days, b),
    decreases days.len(),
{
    let front = days.drop_last();
    if i == days.len() - 1 {
        lemma_count_before_le_mono(front, d, b);
    } else {
        assert(front[i] == d);
        lemma_count_before_shrinks(front, d, b, i);
    }
}

proof fn lemma_count_before_le_mono(days: Seq<Date>, d: Date, b: Date)
    requires
        date_before(d, b),
    ensures
        count_before(days, d) <= count_before(days, b),
    decreases days.len(),
{
    if days.len() > 0 {
        lemma_count_before_le_mono(days.drop_last(), d, b);
    }
}

/// What listing a user's messages hands back, starting at day `from` with
/// the day files `files` and the day directories `days`: a non-empty file
/// is the answer; after an empty one, the latest day before it is read;
/// `fuel` bounds the number of steps.
pub open spec fn listed(
    files: spec_fn(Date) -> Seq<ChatModel>,
    days: Seq<Date>,
    from: Date,
    fuel: nat,
) -> Seq<ChatModel>
    decreases fuel,
{
    if files(from).len() > 0 {
        files(from)
    } else if fuel == 0 || !any_before(days, from) {
        Seq::empty()
    } else {
        listed(files, days, latest_day_before(days, from), (fuel - 1) as nat)
    }
}

/// Day fallback: where the file of day `from` is empty, listing hands back
/// the file of the latest earlier day whose file is not empty, and nothing
/// where no earlier day has one. With as many steps as there are days, the
/// listing always gets that far.
pub proof fn lemma_listing_falls_back(
    files: spec_fn(Date) -> Seq<ChatModel>,
    days: Seq<Date>,
    from: Date,
    fuel: nat,
)
    requires
        fuel >= days.len(),
    ensures
        files(from).len() > 0 ==> listed(files, days, from, fuel) == files(from),
        files(from).len() == 0 ==> (listed(files, days, from, fuel).len() == 0 <==> forall|j: int|
            0 <= j < days.len() && date_before(#[trigger] days[j], from) ==> files(days[j]).len()
                == 0),
        files(from).len() == 0 && listed(files, days, from, fuel).len() > 0 ==> exists|j: int|
            0 <= j < days.len() && date_before(#[trigger] days[j], from) && files(days[j]).len() > 0
                && listed(files, days, from, fuel) == files(days[j]) && forall|k: int|
                0 <= k < days.len() && date_before(#[trigger] days[k], from) && files(
                    days[k],
                ).len() > 0 ==> !date_before(days[j], days[k]),
{
    lemma_count_before_le(days, from);
    lemma_listing_steps(files, days, from, fuel);
}

proof fn lemma_listing_steps(
    files: spec_fn(Date) -> Seq<ChatModel>,
    days: Seq<Date>,
    from: Date,
    fuel: nat,
)
    requires
        fuel >= count_before(days, from),
    ensures
        files(from).len() > 0 ==> listed(files, days, from, fuel) == files(from),
        files(from).len() == 0 ==> (listed(files, days, from, fuel).len() == 0 <==> forall|j: int|
            0 <= j < days.len() && date_before(#[trigger] days[j], from) ==> files(days[j]).len()
                == 0),
        files(from).len() == 0 && listed(files, days, from, fuel).len() > 0 ==> exists|j: int|
            0 <= j < days.len() && date_before(#[trigger] days[j], from) && files(days[j]).len() > 0
                && listed(files, days, from, fuel) == files(days[j]) && forall|k: int|
                0 <= k < days.len() && date_before(#[trigger] days[k], from) && files(
                    days[k],
                ).len() > 0 ==> !date_before(days[j], days[k]),
    decreases fuel,
{
    if files(from).len() == 0 && any_before(days, from) {
        lemma_latest_exists(days, from);
        let d = latest_day_before(days, from);
        let i = choose|i: int| 0 <= i < days.len() && days[i] == d;
        lemma_count_before_shrinks(days, d, from, i);
        lemma_listing_steps(files, days, d, (fuel - 1) as nat);
        let r = listed(files, days, from, fuel);
        assert(r == listed(files, days, d, (fuel - 1) as nat));
        if files(d).len() > 0 {
            assert(date_before(days[i], from) && files(days[i]).len() > 0 && r == files(days[i]));
        } else {
            // The days before `from` with a non-empty file are those before `d`.
            assert forall|x: int|
                0 <= x < days.len() && date_before(#[trigger] days[x], from) && files(days[x]).len()
                    > 0 implies date_before(days[x], d) by {
                assert(!date_before(d, days[x]));
                assert(days[x] != d);
            }
        }
        if files(d).len() == 0 && r.len() > 0 {
            let j = choose|j: int|
                0 <= j < days.len() && date_before(#[trigger] days[j], d) && files(days[j]).len() > 0
                    && listed(files, days, d, (fuel - 1) as nat) == files(days[j]) && forall|k: int|
                    0 <= k < days.len() && date_before(#[trigger] days[k], d) && files(
                        days[k],
                    ).len() > 0 ==> !date_before(days[j], days[k]);
            assert(date_before(days[j], from));
        }
    }
}

/// The next move while listing a user's messages: hand the messages back,
/// or read the file of an earlier day.
pub enum Listing {
    Done(Vec<ChatModel>),
    Load(Date),
}

/// One step of listing a user's messages. `loaded` is the file of day
/// `loaded_date` (the current day at first); `days` are the user's day
/// directories. A non-empty file is the answer; after an empty one, the
/// latest day before it is read next, and where there is none, the answer
/// is empty.
pub fn listing_step(loaded: Vec<ChatModel>, loaded_date: &Date, days: &Vec<Date>) -> (r: Listing)
    ensures
        loaded@.len() > 0 ==> r == Listing::Done(loaded),
        loaded@.len() == 0 ==> match r {
            Listing::Done(v) => v@.len() == 0 && forall|j: int|
                0 <= j < days@.len() ==> !date_before(#[trigger] days@[j], *loaded_date),
            Listing::Load(d) => d == latest_day_before(days@, *loaded_date) && days@.contains(d)
                && date_before(d, *loaded_date) && forall|
                j: int,
            |
                0 <= j < days@.len() && date_before(#[trigger] days@[j], *loaded_date)
                    ==> !date_before(d, days@[j]),
        },
{
    if loaded.len() > 0 {
        return Listing::Done(loaded);
    }
    match latest_before(days, loaded_date) {
        Some(d) => {
            proof {
                lemma_latest_exists(days@, *loaded_date);
                let e = latest_day_before(days@, *loaded_date);
                let i = choose|i: int| 0 <= i < days@.len() && days@[i] == d;
                let k = choose|k: int| 0 <= k < days@.len() && days@[k] == e;
                assert(!date_before(d, days@[k]));
                assert(!date_before(e, days@[i]));
            }
            Listing::Load(d)
        },
        None => Listing::Done(Vec::new()),
    }
}

/// What asking for `id` as `user` answers, with `cache` before the call and
/// `today` the current day's file of that user.
pub open spec fn looked_up(
    cache: Map<(Seq<char>, Seq<char>), ChatView>,
    user: Seq<char>,
    id: Seq<char>,
    today: Seq<ChatModel>,
) -> Option<ChatView> {
    let k = cache_key(id, user);
    if cache.contains_key(k) {
        Some(cache[k])
    } else if merged(cache, user, today).contains_key(k) {
        Some(merged(cache, user, today)[k])
    } else {
        None
    }
}

/// The cache that a run of saves leaves, from an empty one; each save is
/// (user, message).
pub open spec fn saved(saves: Seq<(Seq<char>, ChatView)>) -> Map<(Seq<char>, Seq<char>), ChatView>
    decreases saves.len(),
{
    if saves.len() == 0 {
        Map::empty()
    } else {
        let (u, c) = saves.last();
        saved(saves.drop_last()).insert(cache_key(c.hash, u), c)
    }
}

/// A key is in the cache after a day file is merged in exactly when it was
/// there before or the file holds a message with that identity.
pub proof fn lemma_merged_keys(
    m: Map<(Seq<char>, Seq<char>), ChatView>,
    user: Seq<char>,
    day: Seq<ChatModel>,
    id: Seq<char>,
)
    ensures
        merged(m, user, day).contains_key(cache_key(id, user)) <==> (m.contains_key(
            cache_key(id, user),
        ) || exists|i: int| 0 <= i < day.len() && (#[trigger] day[i]).hash@ == id),
    decreases day.len(),
{
    if day.len() > 0 {
        let front = day.drop_last();
        lemma_merged_keys(m, user, front, id);
        if exists|i: int| 0 <= i < front.len() && (#[trigger] front[i]).hash@ == id {
            let i = choose|i: int| 0 <= i < front.len() && (#[trigger] front[i]).hash@ == id;
            assert(day[i] == front[i]);
        }
        if exists|i: int| 0 <= i < day.len() && (#[trigger] day[i]).hash@ == id {
            let i = choose|i: int| 0 <= i < day.len() && (#[trigger] day[i]).hash@ == id;
            if i < front.len() {
                assert(day[i] == front[i]);
            }
        }
    }
}

/// Every key of the cache that a run of saves leaves belongs to a save:
/// its user saved a message with that identity.
pub proof fn lemma_saved_keys(saves: Seq<(Seq<char>, ChatView)>, k: (Seq<char>, Seq<char>))
    ensures
        saved(saves).contains_key(k) <==> exists|i: int|
            0 <= i < saves.len() && cache_key((#[trigger] saves[i]).1.hash, saves[i].0) == k,
    decreases saves.len(),
{
    if saves.len() > 0 {
        let front = saves.drop_last();
        lemma_saved_keys(front, k);
        if exists|i: int| 0 <= i < front.len() && cache_key((#[trigger] front[i]).1.hash, front[i].0) == k {
            let i = choose|i: int| 0 <= i < front.len() && cache_key((#[trigger] front[i]).1.hash, front[i].0) == k;
            assert(saves[i] == front[i]);
        }
        if exists|i: int| 0 <= i < saves.len() && cache_key((#[trigger] saves[i]).1.hash, saves[i].0) == k {
            let i = choose|i: int| 0 <= i < saves.len() && cache_key((#[trigger] saves[i]).1.hash, saves[i].0) == k;
            if i < front.len() {
                assert(saves[i] == front[i]);
            }
        }
    }
}

/// Round trip: after a message is saved for a user, asking for its identity
/// as that user gives the message back, whatever the cache held before and
/// whatever the current day's file holds.
pub proof fn lemma_save_then_get(
    cache: Map<(Seq<char>, Seq<char>), ChatView>,
    user: Seq<char>,
    chat: ChatView,
    today: Seq<ChatModel>,
)
    ensures
        looked_up(cache.insert(cache_key(chat.hash, user), chat), user, chat.hash, today) == Some(
            chat,
        ),
{
}

/// Isolation: where every save was made by other users than `user`, and the
/// current day's file of `user` holds no message with identity `id`, asking
/// for `id` as `user` finds nothing.
pub proof fn lemma_isolation(
    saves: Seq<(Seq<char>, ChatView)>,
    user: Seq<char>,
    id: Seq<char>,
    today: Seq<ChatModel>,
)
    requires
        forall|i: int| 0 <= i < saves.len() ==> (#[trigger] saves[i]).0 != user,
        forall|i: int| 0 <= i < today.len() ==> (#[trigger] today[i]).hash@ != id,
    ensures
        looked_up(saved(saves), user, id, today) is None,
{
    lemma_saved_keys(saves, cache_key(id, user));
    lemma_merged_keys(saved(saves), user, today, id);
}

/// Miss: an identity that no save of `user` used, and that the current day's
/// file of `user` does not hold, is not found.
pub proof fn lemma_miss(
    saves: Seq<(Seq<char>, ChatView)>,
    user: Seq<char>,
    id: Seq<char>,
    today: Seq<ChatModel>,
)
    requires
        forall|i: int|
            0 <= i < saves.len() && (#[trigger] saves[i]).0 == user ==> saves[i].1.hash != id,
        forall|i: int| 0 <= i < today.len() ==> (#[trigger] today[i]).hash@ != id,
    ensures
        looked_up(saved(saves), user, id, today) is None,
{
    lemma_saved_keys(saves, cache_key(id, user));
    lemma_merged_keys(saved(saves), user, today, id);
}

/// Two saves with one identity for one user leave one cache entry under that
/// key, the later message, while the day file gains both records.
pub proof fn lemma_duplicate_identity(
    cache: Map<(Seq<char>, Seq<char>), ChatView>,
    day: Seq<ChatModel>,
    user: Seq<char>,
    first: ChatModel,
    second: ChatModel,
)
    requires
        first.hash@ == second.hash@,
    ensures
        cache.insert(cache_key(first.hash@, user), first@).insert(
            cache_key(second.hash@, user),
            second@,
        ) == cache.insert(cache_key(first.hash@, user), second@),
        day.push(first).push(second).len() == day.len() + 2,
        day.push(first).push(second)[day.len() as int] == first,
        day.push(first).push(second)[day.len() + 1int] == second,
{
    assert(cache.insert(cache_key(first.hash@, user), first@).insert(
        cache_key(second.hash@, user),
        second@,
    ) =~= cache.insert(cache_key(first.hash@, user), second@));
}

/// The file-backed message archive: its in-memory part. It holds a cache from
/// (identity, user) to message; the day files are read and written around it.
pub struct FsMessageRepo {
    memory: Vec<CacheEntry>,
}

impl FsMessageRepo {
    pub closed spec fn wf(&self) -> bool {
        keys_unique(self.memory@)
    }

    /// What the cache holds, by (identity, user).
    pub closed spec fn cache(&self) -> Map<(Seq<char>, Seq<char>), ChatView> {
        entries_map(self.memory@)
    }

    pub fn new() -> (r: FsMessageRepo)
        ensures
            r.wf(),
            r.cache() == Map::<(Seq<char>, Seq<char>), ChatView>::empty(),
    {
        let r = FsMessageRepo { memory: Vec::new() };
        assert(r.cache() =~= Map::<(Seq<char>, Seq<char>), ChatView>::empty());
        r
    }


    /// Caches `chat` for `user` and hands it back. The caller then rewrites
    /// the day file with `appended`.
    pub fn save_chat(&mut self, user: String, chat: ChatModel) -> (r: ChatModel)
        requires
            old(self).wf(),
        ensures
            final(self).wf(),
            final(self).cache() == old(self).cache().insert(cache_key(chat.hash@, user@), chat@),
            r@ == chat@,
    {
        let kept = chat.clone();
        self.remember(&user, kept);
        chat
    }

    /// Puts every message of a day file in the cache for `user`, in order.
    pub fn load_day(&mut self, user: &String, day: &Vec<ChatModel>)
        requires
            old(self).wf(),
        ensures
            final(self).wf(),
            final(self).cache() == merged(old(self).cache(), user@, day@),
    {
        let ghost start = self.cache();
        let mut i: usize = 0;
        while i < day.len()
            invariant
                self.wf(),
                i <= day@.len(),
                self.cache() == merged(start, user@, day@.take(i as int)),
            decreases day@.len() - i,
        {
            let c = day[i].clone();
            self.remember(user, c);
            proof {
                let t = day@.take(i as int + 1);
                assert(t.drop_last() =~= day@.take(i as int));
                assert(t.last() == day@[i as int]);
            }
            i = i + 1;
        }
        assert(day@.take(day@.len() as int) =~= day@);
    }

    /// The message saved under `id` for `user`. On a cache miss, the messages
    /// of the current day's file (`today`) are cached first and the lookup is
    /// made again.
    pub fn get_chat(&mut self, user: String, id: String, today: &Vec<ChatModel>) -> (r: Result<ChatModel, RepoError>)
        requires
            old(self).wf(),
        ensures
            final(self).wf(),
            old(self).cache().contains_key(cache_key(id@, user@))
                ==> final(self).cache() == old(self).cache(),
            !old(self).cache().contains_key(cache_key(id@, user@))
                ==> final(self).cache() == merged(old(self).cache(), user@, today@),
            match r {
                Ok(c) => looked_up(old(self).cache(), user@, id@, today@) == Some(c@),
                Err(_) => looked_up(old(self).cache(), user@, id@, today@) is None,
            },
            match r {
                Ok(c) => final(self).cache().contains_key(cache_key(id@, user@))
                    && c@ == final(self).cache()[cache_key(id@, user@)],
                Err(e) => e == RepoError::NotFound
                    && !final(self).cache().contains_key(cache_key(id@, user@)),
            },
    {
        match self.cached(&user, &id) {
            Some(c) => Ok(c),
            None => {
                self.load_day(&user, today);
                match self.cached(&user, &id) {
                    Some(c) => Ok(c),
                    None => Err(RepoError::NotFound),
                }
            },
        }
    }

    fn find(&self, user: &String, hash: &String) -> (r: Option<usize>)
        requires
            self.wf(),
        ensures
            match r {
                Some(i) => i < self.memory@.len() && entry_key(self.memory@[i as int]) == cache_key(
                    hash@,
                    user@,
                ),
                None => !self.cache().contains_key(cache_key(hash@, user@)),
            },
    {
        let mut i: usize = 0;
        while i < self.memory.len()
            invariant
                i <= self.memory@.len(),
                forall|j: int|
                    0 <= j < i ==> entry_key(#[trigger] self.memory@[j]) != cache_key(
                        hash@,
                        user@,
                    ),
            decreases self.memory@.len() - i,
        {
            if self.memory[i].user == *user && self.memory[i].chat.hash == *hash {
                return Some(i);
            }
            i = i + 1;
        }
        None
    }

    /// The cached message saved under `id` for `user`, if any.
    pub fn cached(&self, user: &String, id: &String) -> (r: Option<ChatModel>)
        requires
            self.wf(),
        ensures
            match r {
                Some(c) => self.cache().contains_key(cache_key(id@, user@)) && c@ == self.cache()[cache_key(id@, user@)],
                None => !self.cache().contains_key(cache_key(id@, user@)),
            },
    {
        match self.find(user, id) {
            Some(i) => {
                proof {
                    lemma_entries_map_at(self.memory@, i as int);
                }
                Some(self.memory[i].chat.clone())
            },
            None => None,
        }
    }

    /// Puts `chat` in the cache under (its identity, `user`), replacing what
    /// was there under that key.
    pub fn remember(&mut self, user: &String, chat: ChatModel)
        requires
            old(self).wf(),
        ensures
            final(self).wf(),
            final(self).cache() == old(self).cache().insert(cache_key(chat.hash@, user@), chat@),
    {
        let ghost k = cache_key(chat.hash@, user@);
        let ghost v = chat@;
        let ghost s0 = self.memory@;
        let entry = CacheEntry { user: user.clone(), chat };
        match self.find(user, &entry.chat.hash) {
            Some(i) => {
                self.memory.set(i, entry);
                let ghost s1 = self.memory@;
                assert forall|a: int, b: int|
                    0 <= a < s1.len() && 0 <= b < s1.len() && entry_key(#[trigger] s1[a])
                        == entry_key(#[trigger] s1[b]) implies a == b by {
                    if a != i && b != i {
                        assert(s0[a] == s1[a] && s0[b] == s1[b]);
                    } else if a == i && b != i {
                        assert(s0[b] == s1[b]);
                        assert(entry_key(s0[i as int]) == k);
                    } else if a != i && b == i {
                        assert(s0[a] == s1[a]);
                        assert(entry_key(s0[i as int]) == k);
                    }
                }
                proof {
                    lemma_replace_entry(s0, i as int, s1[i as int]);
                }
            },
            None => {
                self.memory.push(entry);
                let ghost s1 = self.memory@;
                assert forall|a: int, b: int|
                    0 <= a < s1.len() && 0 <= b < s1.len() && entry_key(#[trigger] s1[a])
                        == entry_key(#[trigger] s1[b]) implies a == b by {
                    if a < s0.len() && b < s0.len() {
                        assert(s0[a] == s1[a] && s0[b] == s1[b]);
                    } else if a < s0.len() {
                        assert(s0[a] == s1[a]);
                        assert(entries_map(s0).contains_key(entry_key(s0[a])));
                    } else if b < s0.len() {
                        assert(s0[b] == s1[b]);
                        assert(entries_map(s0).contains_key(entry_key(s0[b])));
                    }
                }
                proof {
                    lemma_push_entry(s0, s1[s0.len() as int]);
                }
            },
        }
    }
}

/// The bit patterns of the stub's embedding, the binary32 numbers
/// 0.1, 0.2 and 0.3.
pub open spec fn stub_embedding() -> Seq<u32> {
    seq![1036831949u32, 1045220557u32, 1050253722u32]
}

/// The message that the stub makes up, under identity `hash`.
pub open spec fn stub_chat(hash: Seq<char>) -> ChatView {
    ChatView { role: "user"@, content: "Hello"@, hash, embedding: stub_embedding() }
}

fn make_stub_chat(hash: String) -> (r: ChatModel)
    ensures
        r@ == stub_chat(hash@),
{
    let mut embedding: Vec<u32> = Vec::new();
    embedding.push(1036831949u32);
    embedding.push(1045220557u32);
    embedding.push(1050253722u32);
    assert(embedding@ =~= stub_embedding());
    ChatModel {
        role: String::from_str("user"),
        content: String::from_str("Hello"),
        hash,
        embedding,
    }
}

/// A message repository that keeps nothing and answers with fixed values.
pub struct MockMessageRepo {}

impl MockMessageRepo {
    pub fn new() -> (r: MockMessageRepo) {
        MockMessageRepo {  }
    }

    /// Hands the message back unchanged.
    pub fn save_chat(&mut self, user: String, chat: ChatModel) -> (r: ChatModel)
        ensures
            r@ == chat@,
    {
        chat
    }

    /// Always finds a made-up message under the asked identity.
    pub fn get_chat(&mut self, user: String, id: String) -> (r: Result<ChatModel, RepoError>)
        ensures
            r matches Ok(c) && c@ == stub_chat(id@),
    {
        Ok(make_stub_chat(id))
    }

    /// Lists nothing.
    pub fn get_all_for_user(&self, user: String) -> (r: Vec<ChatModel>)
        ensures
            r@.len() == 0,
    {
        Vec::new()
    }

    /// The one message that every search of the stub finds.
    pub fn search_hit(&self) -> (r: ChatModel)
        ensures
            r@ == stub_chat("123"@),
    {
        make_stub_chat(String::from_str("123"))
    }
}

} // verus!
