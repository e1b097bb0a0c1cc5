//! Portable, declarative workspace behavior shared by Steel and native clients:
//! views, actions and their capabilities, queries and note templates.

use vstd::prelude::*;

use time::OffsetDateTime;

use crate::text::{chars_of, push_char, replace_all, replace_spec};
use crate::text_map::{sorted_keys, TextMap};
use crate::text::{lemma_lex_order_antisym, lemma_lex_order_trans, lemma_sorted_no_duplicates, lex_order, strictly_sorted};
use crate::timestamp;
use crate::timestamp::{
    calendar_date, civil_day, civil_month, civil_year, numeric_offset_spec, rfc3339_text,
    rfc3339_writable, Instant,
};

verus! {

pub const BEHAVIOR_SCHEMA: u16 = 1;

pub const DEFAULT_QUERY_LIMIT: usize = 500;

/// A capability that an action needs from the host.
#[derive(Clone, Copy, Debug, PartialEq, Eq, Structural, PartialOrd, Ord, Hash)]
pub enum Capability {
    CreateNote,
    MutateNote,
    Network,
    ReadSecret,
}

/// The position of a capability in the order in which sets list them.
pub open spec fn capability_rank(c: Capability) -> int {
    match c {
        Capability::CreateNote => 0,
        Capability::MutateNote => 1,
        Capability::Network => 2,
        Capability::ReadSecret => 3,
    }
}

/// Whether `s` lists capabilities in ascending order without repetition,
/// the form a set of capabilities takes.
pub open spec fn capability_set(s: Seq<Capability>) -> bool {
    forall|i: int, j: int| 0 <= i < j < s.len() ==> capability_rank(#[trigger] s[i]) < capability_rank(#[trigger] s[j])
}

/// Why a behavior description or a request against it was refused.
#[derive(Clone, Debug, PartialEq, Eq)]
pub enum BehaviorError {
    UnsupportedSchema(u16),
    Duplicate { kind: &'static str, id: String },
    UnknownView(String),
    UnknownSubview(String),
    UnknownAction(String),
    ActionUnavailable(String),
    CapabilityDenied { action: String, capability: Capability },
    InvalidQueryLimit,
}

/// Which notes a view, subview or action applies to.
#[derive(Debug, PartialEq, Eq)]
pub enum Predicate {
    Always,
    FieldEquals { field: String, value: String },
    HasTag { tag: String },
    Not { predicate: Box<Predicate> },
    All { predicates: Vec<Predicate> },
    Any { predicates: Vec<Predicate> },
}

/// The abstract value of a predicate.
pub enum PredicateView {
    Always,
    FieldEquals(Seq<char>, Seq<char>),
    HasTag(Seq<char>),
    Not(Box<PredicateView>),
    All(Seq<PredicateView>),
    Any(Seq<PredicateView>),
}

impl Predicate {
    pub open spec fn view(self) -> PredicateView
        decreases self,
    {
        match self {
            Predicate::Always => PredicateView::Always,
            Predicate::FieldEquals { field, value } => PredicateView::FieldEquals(field@, value@),
            Predicate::HasTag { tag } => PredicateView::HasTag(tag@),
            Predicate::Not { predicate } => PredicateView::Not(Box::new(predicate.view())),
            Predicate::All { predicates } => PredicateView::All(predicate_views(predicates@)),
            Predicate::Any { predicates } => PredicateView::Any(predicate_views(predicates@)),
        }
    }
}

/// The abstract values of a sequence of predicates.
pub open spec fn predicate_views(ps: Seq<Predicate>) -> Seq<PredicateView>
    decreases ps,
{
    if ps.len() == 0 {
        Seq::empty()
    } else {
        seq![ps[0].view()] + predicate_views(ps.drop_first())
    }
}

/// The view of predicates grows with the predicates.
pub proof fn lemma_predicate_views_push(ps: Seq<Predicate>, p: Predicate)
    ensures
        predicate_views(ps.push(p)) == predicate_views(ps).push(p.view()),
    decreases ps.len(),
{
    let t = ps.push(p);
    if ps.len() == 0 {
        assert(t.len() == 1 && t[0] == p);
        assert(t.drop_first().len() == 0);
        assert(predicate_views(t.drop_first()) == Seq::<PredicateView>::empty());
        assert(predicate_views(t) =~= seq![p.view()]);
        assert(predicate_views(ps) == Seq::<PredicateView>::empty());
        assert(predicate_views(t) =~= predicate_views(ps).push(p.view()));
    } else {
        assert(t[0] == ps[0]);
        assert(t.drop_first() =~= ps.drop_first().push(p));
        lemma_predicate_views_push(ps.drop_first(), p);
        assert(predicate_views(t) =~= predicate_views(ps).push(p.view()));
    }
}

impl Default for Predicate {
    fn default() -> (result: Predicate)
        ensures
            result == Predicate::Always,
    {
        Predicate::Always
    }
}

/// A named subset of a view.
#[derive(Debug, PartialEq, Eq)]
pub struct SubviewDescriptor {
    pub id: String,
    pub name: String,
    pub predicate: Predicate,
}

/// A list of notes as a client shows it.
#[derive(Debug, PartialEq, Eq)]
pub struct ViewDescriptor {
    pub id: String,
    pub name: String,
    pub key: Option<String>,
    pub show_tags: bool,
    pub title_field: String,
    pub subtitle_field: Option<String>,
    pub sort_field: Option<String>,
    pub descending: bool,
    pub preview: Option<String>,
    pub predicate: Predicate,
    pub subviews: Vec<SubviewDescriptor>,
}

/// The abstract value of a subview.
pub struct SubviewView {
    pub id: Seq<char>,
    pub name: Seq<char>,
    pub predicate: PredicateView,
}

impl SubviewDescriptor {
    pub open spec fn view(self) -> SubviewView {
        SubviewView { id: self.id@, name: self.name@, predicate: self.predicate.view() }
    }
}

/// The abstract value of an optional string.
pub open spec fn opt_text(value: Option<String>) -> Option<Seq<char>> {
    match value {
        Some(v) => Some(v@),
        None => None,
    }
}

/// The abstract value of a view.
pub struct ViewView {
    pub id: Seq<char>,
    pub name: Seq<char>,
    pub key: Option<Seq<char>>,
    pub show_tags: bool,
    pub title_field: Seq<char>,
    pub subtitle_field: Option<Seq<char>>,
    pub sort_field: Option<Seq<char>>,
    pub descending: bool,
    pub preview: Option<Seq<char>>,
    pub predicate: PredicateView,
    pub subviews: Seq<SubviewView>,
}

impl ViewDescriptor {
    pub open spec fn view(self) -> ViewView {
        ViewView {
            id: self.id@,
            name: self.name@,
            key: opt_text(self.key),
            show_tags: self.show_tags,
            title_field: self.title_field@,
            subtitle_field: opt_text(self.subtitle_field),
            sort_field: opt_text(self.sort_field),
            descending: self.descending,
            preview: opt_text(self.preview),
            predicate: self.predicate.view(),
            subviews: self.subviews@.map_values(|v: SubviewDescriptor| v.view()),
        }
    }
}

/// Host code that runs an action. The capabilities of a Steel plugin are
/// listed in ascending order without repetition.
#[derive(Clone, Debug, PartialEq, Eq)]
pub enum ActionPlugin {
    CaptureUrl,
    Steel { path: String, entrypoint: String, prompt: String, capabilities: Vec<Capability> },
}

/// The capabilities that running `plugin` needs.
pub open spec fn required_capabilities_spec(plugin: ActionPlugin) -> Seq<Capability> {
    match plugin {
        ActionPlugin::CaptureUrl => seq![Capability::CreateNote, Capability::Network],
        ActionPlugin::Steel { capabilities, .. } => capabilities@,
    }
}

impl ActionPlugin {
    /// The capabilities that running the plugin needs, in ascending order.
    pub fn required_capabilities(&self) -> (result: Vec<Capability>)
        ensures
            result@ == required_capabilities_spec(*self),
    {
        match self {
            ActionPlugin::CaptureUrl => {
                let mut result: Vec<Capability> = Vec::new();
                result.push(Capability::CreateNote);
                result.push(Capability::Network);
                result
            },
            ActionPlugin::Steel { capabilities, .. } => {
                let mut result: Vec<Capability> = Vec::new();
                let mut i: usize = 0;
                while i < capabilities.len()
                    invariant
                        i <= capabilities@.len(),
                        result@ == capabilities@.take(i as int),
                    decreases capabilities@.len() - i,
                {
                    result.push(capabilities[i]);
                    i = i + 1;
                    assert(capabilities@.take(i as int) =~= capabilities@.take((i - 1) as int).push(capabilities@[i - 1]));
                }
                assert(capabilities@.take(i as int) =~= capabilities@);
                result
            },
        }
    }
}

/// A note template: where new notes go and what they start with.
#[derive(Clone, Debug, PartialEq, Eq)]
pub struct TemplateDescriptor {
    pub id: String,
    pub path: String,
    pub content: String,
}

/// A request for the notes of a view. `tags` are listed in ascending order
/// without repetition.
#[derive(Clone, Debug, PartialEq, Eq)]
pub struct Query {
    pub view: String,
    pub subview: Option<String>,
    pub title: Option<String>,
    pub tags: Vec<String>,
    pub limit: Option<usize>,
}

impl Default for Query {
    fn default() -> (result: Query)
        ensures
            result.view@.len() == 0,
            result.subview is None,
            result.title is None,
            result.tags@.len() == 0,
            result.limit is None,
    {
        Query { view: String::new(), subview: None, title: None, tags: Vec::new(), limit: None }
    }
}

/// The values a template can refer to.
#[derive(Debug, PartialEq, Eq)]
pub struct TemplateInputs {
    pub date: String,
    pub date_time: String,
    pub year: String,
    pub month: String,
    pub day: String,
    pub id: String,
    pub slug: String,
    pub values: TextMap,
}

/// The built-in views, used until a workspace publishes its own configuration.
pub fn default_views() -> (result: Vec<ViewDescriptor>)
    ensures
        result@.len() == 2,
        result@[0].id@ == "notes"@,
        result@[0].name@ == "Notes"@,
        result@[0].key matches Some(k) && k@ == "n"@,
        result@[0].show_tags,
        result@[0].title_field@ == "title"@,
        result@[0].subtitle_field is None,
        result@[0].sort_field matches Some(f) && f@ == "created"@,
        result@[0].descending,
        result@[0].preview is None,
        result@[0].predicate matches Predicate::FieldEquals { field, value } && field@ == "type"@
            && value@ == "note"@,
        result@[0].subviews@.len() == 0,
        result@[1].id@ == "all"@,
        result@[1].name@ == "All"@,
        result@[1].key matches Some(k) && k@ == "0"@,
        result@[1].show_tags,
        result@[1].title_field@ == "title"@,
        result@[1].subtitle_field matches Some(f) && f@ == "type"@,
        result@[1].sort_field matches Some(f) && f@ == "created"@,
        result@[1].descending,
        result@[1].preview is None,
        result@[1].predicate == Predicate::Always,
        result@[1].subviews@.len() == 0,
{
    let notes = ViewDescriptor {
        id: "notes".to_owned(),
        name: "Notes".to_owned(),
        key: Some("n".to_owned()),
        show_tags: true,
        title_field: "title".to_owned(),
        subtitle_field: None,
        sort_field: Some("created".to_owned()),
        descending: true,
        preview: None,
        predicate: Predicate::FieldEquals { field: "type".to_owned(), value: "note".to_owned() },
        subviews: Vec::new(),
    };
    let all = ViewDescriptor {
        id: "all".to_owned(),
        name: "All".to_owned(),
        key: Some("0".to_owned()),
        show_tags: true,
        title_field: "title".to_owned(),
        subtitle_field: Some("type".to_owned()),
        sort_field: Some("created".to_owned()),
        descending: true,
        preview: None,
        predicate: Predicate::Always,
        subviews: Vec::new(),
    };
    let mut result: Vec<ViewDescriptor> = Vec::new();
    result.push(notes);
    result.push(all);
    result
}

/// The text that stands for variable `key` in a template: `{{key}}`.
pub open spec fn placeholder_spec(key: Seq<char>) -> Seq<char> {
    seq!['{', '{'] + key + seq!['}', '}']
}

/// `text` with the placeholder of each key of `keys`, taken in turn,
/// replaced by its value in `values`.
pub open spec fn substitute(text: Seq<char>, keys: Seq<Seq<char>>, values: Map<Seq<char>, Seq<char>>) -> Seq<char>
    decreases keys.len(),
{
    if keys.len() == 0 {
        text
    } else {
        substitute(
            replace_spec(text, placeholder_spec(keys[0]), values[keys[0]]),
            keys.drop_first(),
            values,
        )
    }
}

/// `template` with the placeholder of each variable replaced by its value,
/// the variables taken in ascending order of name.
pub open spec fn render_spec(template: Seq<char>, values: Map<Seq<char>, Seq<char>>) -> Seq<char> {
    substitute(template, sorted_keys(values), values)
}

fn placeholder(key: &str) -> (result: String)
    ensures
        result@ == placeholder_spec(key@),
{
    let chars = chars_of(key);
    let mut result = String::new();
    push_char(&mut result, '{');
    push_char(&mut result, '{');
    let mut i: usize = 0;
    while i < chars.len()
        invariant
            i <= chars@.len(),
            result@ == seq!['{', '{'] + chars@.take(i as int),
        decreases chars@.len() - i,
    {
        push_char(&mut result, chars[i]);
        i = i + 1;
        assert(chars@.take(i as int) =~= chars@.take((i - 1) as int).push(chars@[i - 1]));
    }
    push_char(&mut result, '}');
    push_char(&mut result, '}');
    assert(chars@.take(i as int) =~= key@);
    assert(result@ =~= placeholder_spec(key@));
    result
}

/// Replace the placeholder of every variable in `values`.
pub fn render_variables(template: &str, values: &TextMap) -> (result: String)
    requires
        values.wf(),
    ensures
        result@ == render_spec(template@, values.view()),
{
    proof {
        values.lemma_entries();
    }
    let ghost keys = values.key_seq();
    let ghost m = values.view();
    let mut text = template.to_owned();
    let mut i: usize = 0;
    let n = values.len();
    proof {
        assert(keys.skip(0) =~= keys);
    }
    while i < n
        invariant
            values.wf(),
            n == keys.len(),
            keys == values.key_seq(),
            m == values.view(),
            keys == sorted_keys(m),
            forall|j: int| 0 <= j < keys.len() ==> #[trigger] m[keys[j]] == values.value_seq()[j],
            i <= n,
            substitute(text@, keys.skip(i as int), m) == render_spec(template@, m),
        decreases n - i,
    {
        let key = values.key_at(i);
        let value = values.value_at(i);
        let pattern = placeholder(key.as_str());
        proof {
            assert(keys.skip(i as int)[0] == keys[i as int]);
            assert(keys.skip(i as int).drop_first() =~= keys.skip(i + 1));
            assert(m[keys[i as int]] == value@);
        }
        text = replace_all(text.as_str(), pattern.as_str(), value.as_str());
        i = i + 1;
    }
    proof {
        assert(keys.skip(i as int).len() == 0);
    }
    text
}

/// The variables a template sees: the caller's values, then the built-in
/// ones, which take precedence.
pub open spec fn template_values(input: TemplateInputs) -> Map<Seq<char>, Seq<char>> {
    input.values.view()
        .insert("Date"@, input.date@)
        .insert("DateTime"@, input.date_time@)
        .insert("Year"@, input.year@)
        .insert("Month"@, input.month@)
        .insert("Day"@, input.day@)
        .insert("ID"@, input.id@)
        .insert("Slug"@, input.slug@)
}

/// Render a template with the values of `input`.
pub fn render_template(template: &str, input: &TemplateInputs) -> (result: String)
    requires
        input.values.wf(),
    ensures
        result@ == render_spec(template@, template_values(*input)),
{
    let mut values = input.values.duplicate();
    values.insert("Date".to_owned(), input.date.clone());
    values.insert("DateTime".to_owned(), input.date_time.clone());
    values.insert("Year".to_owned(), input.year.clone());
    values.insert("Month".to_owned(), input.month.clone());
    values.insert("Day".to_owned(), input.day.clone());
    values.insert("ID".to_owned(), input.id.clone());
    values.insert("Slug".to_owned(), input.slug.clone());
    render_variables(template, &values)
}

/// The decimal digit `d`.
pub open spec fn digit_char(d: int) -> char {
    ((d + 48) as u8) as char
}

/// The decimal digits of `n`, most significant first, without leading zeros.
pub open spec fn decimal_spec(n: nat) -> Seq<char>
    decreases n,
{
    if n < 10 {
        seq![digit_char(n as int)]
    } else {
        decimal_spec(n / 10).push(digit_char((n % 10) as int))
    }
}

/// The decimal form of `n`, as `Display` writes it: a `-` before negative values.
pub open spec fn signed_decimal_spec(n: int) -> Seq<char> {
    if n < 0 {
        seq!['-'] + decimal_spec((-n) as nat)
    } else {
        decimal_spec(n as nat)
    }
}

/// The decimal form of `n` padded with zeros to two digits, as `{:02}` writes it.
pub open spec fn two_digits_spec(n: nat) -> Seq<char> {
    if n < 10 {
        seq!['0', digit_char(n as int)]
    } else {
        decimal_spec(n)
    }
}

fn digit(d: u32) -> (result: char)
    requires
        d < 10,
    ensures
        result == digit_char(d as int),
{
    ((d + 48) as u8) as char
}

/// The decimal digits of `n`.
pub fn decimal(n: u64) -> (result: String)
    ensures
        result@ == decimal_spec(n as nat),
{
    let mut digits: Vec<char> = Vec::new();
    let mut rest: u64 = n;
    while rest >= 10
        invariant
            decimal_spec(n as nat) == decimal_spec(rest as nat) + digits@.reverse(),
        decreases rest,
    {
        let d = rest % 10;
        proof {
            assert(decimal_spec(rest as nat) == decimal_spec((rest / 10) as nat).push(digit_char(d as int)));
            assert(digits@.push(digit_char(d as int)).reverse() =~= seq![digit_char(d as int)] + digits@.reverse());
            assert(decimal_spec((rest / 10) as nat).push(digit_char(d as int)) + digits@.reverse()
                =~= decimal_spec((rest / 10) as nat) + (seq![digit_char(d as int)] + digits@.reverse()));
        }
        digits.push(digit(d as u32));
        rest = rest / 10;
    }
    let mut result = String::new();
    push_char(&mut result, digit(rest as u32));
    let mut i: usize = digits.len();
    proof {
        assert(decimal_spec(rest as nat) == seq![digit_char(rest as int)]);
    }
    while i > 0
        invariant
            i <= digits@.len(),
            result@ + digits@.take(i as int).reverse() == decimal_spec(n as nat),
        decreases i,
    {
        i = i - 1;
        let ghost before = result@;
        push_char(&mut result, digits[i]);
        proof {
            assert(digits@.take(i + 1).reverse() =~= seq![digits@[i as int]] + digits@.take(i as int).reverse());
            assert(before + (seq![digits@[i as int]] + digits@.take(i as int).reverse()) =~= before.push(digits@[i as int]) + digits@.take(i as int).reverse());
        }
    }
    proof {
        assert(digits@.take(0).reverse() =~= Seq::<char>::empty());
        assert(result@ + Seq::<char>::empty() =~= result@);
    }
    result
}

/// The decimal form of a signed year.
pub fn signed_decimal(n: i32) -> (result: String)
    ensures
        result@ == signed_decimal_spec(n as int),
{
    if n < 0 {
        let magnitude: u32 = if n == i32::MIN {
            2147483648u32
        } else {
            (-n) as u32
        };
        let digits = decimal(magnitude as u64);
        let chars = chars_of(digits.as_str());
        let mut result = String::new();
        push_char(&mut result, '-');
        let mut i: usize = 0;
        while i < chars.len()
            invariant
                i <= chars@.len(),
                result@ == seq!['-'] + chars@.take(i as int),
            decreases chars@.len() - i,
        {
            push_char(&mut result, chars[i]);
            i = i + 1;
            assert(chars@.take(i as int) =~= chars@.take((i - 1) as int).push(chars@[i - 1]));
        }
        assert(chars@.take(i as int) =~= chars@);
        result
    } else {
        decimal(n as u64)
    }
}

/// A number below one hundred, padded with zeros to two digits.
pub fn two_digits(n: u8) -> (result: String)
    ensures
        result@ == two_digits_spec(n as nat),
{
    if n < 10 {
        let mut result = String::new();
        push_char(&mut result, '0');
        push_char(&mut result, digit(n as u32));
        result
    } else {
        decimal(n as u64)
    }
}

/// The decimal digits of `n` below 10000, padded with zeros to four.
pub open spec fn four_digits_spec(n: nat) -> Seq<char> {
    seq![
        digit_char(((n / 1000) % 10) as int),
        digit_char(((n / 100) % 10) as int),
        digit_char(((n / 10) % 10) as int),
        digit_char((n % 10) as int),
    ]
}

/// A date written as `[year]-[month]-[day]`: the year in four digits,
/// after `-` when negative, and month and day in two.
pub open spec fn date_text_spec(year: int, month: int, day: int) -> Seq<char> {
    (if year < 0 { seq!['-'] } else { Seq::empty() }) + four_digits_spec(
        (if year < 0 { -year } else { year }) as nat,
    ) + seq!['-'] + two_digits_spec(month as nat) + seq!['-'] + two_digits_spec(day as nat)
}

/// The local date of an instant written as `[year]-[month]-[day]`.
pub open spec fn local_date_text(instant: Instant) -> Seq<char> {
    date_text_spec(
        civil_year(instant.local_days()),
        civil_month(instant.local_days()),
        civil_day(instant.local_days()),
    )
}

/// `time`'s formatting of the local date of `instant` as `[year]-[month]-[day]`
/// (`Date::format` with that description): the year padded with zeros to four
/// digits, signed only when negative, and month and day padded to two.
/// Writing into memory cannot fail, and the description is fixed.
#[verifier::external_body]
fn format_calendar_date(instant: &Instant) -> (result: Result<String, time::error::Format>)
    requires
        instant.wf(),
    ensures
        result is Ok,
        result matches Ok(text) ==> text@ == local_date_text(*instant),
{
    let value = OffsetDateTime::from_unix_timestamp(instant.unix_seconds + instant.offset_seconds as i64)
        .unwrap()
        .replace_offset(time::UtcOffset::from_whole_seconds(instant.offset_seconds).unwrap());
    match time::format_description::parse("[year]-[month]-[day]") {
        Ok(items) => value.date().format(&items),
        Err(_) => Err(time::error::Format::InvalidComponent("date")),
    }
}

impl TemplateInputs {
    /// Assemble template inputs from a formatted date and time and the
    /// calendar fields of the same instant.
    pub fn from_parts(
        date: String,
        date_time: String,
        year: i32,
        month: u8,
        day: u8,
        id: String,
        slug: String,
        values: TextMap,
    ) -> (result: TemplateInputs)
        ensures
            result.date == date,
            result.date_time == date_time,
            result.year@ == signed_decimal_spec(year as int),
            result.month@ == two_digits_spec(month as nat),
            result.day@ == two_digits_spec(day as nat),
            result.id == id,
            result.slug == slug,
            result.values == values,
    {
        TemplateInputs {
            date,
            date_time,
            year: signed_decimal(year),
            month: two_digits(month),
            day: two_digits(day),
            id,
            slug,
            values,
        }
    }

    /// Build every clock-derived template value from an explicit instant: its
    /// local date, its RFC 3339 time with a numeric offset, and the year,
    /// month and day of its local date. It fails where `time` cannot write
    /// the instant in RFC 3339.
    pub fn deterministic(instant: Instant, id: String, slug: String, values: TextMap) -> (result: Result<
        TemplateInputs,
        time::error::Format,
    >)
        requires
            values.wf(),
            instant.wf(),
        ensures
            result is Ok <==> rfc3339_writable(instant),
            result matches Ok(inputs) ==> {
                let days = instant.local_days();
                &&& inputs.date@ == date_text_spec(civil_year(days), civil_month(days), civil_day(days))
                &&& inputs.date_time@ == numeric_offset_spec(
                    rfc3339_text(instant.unix_seconds, instant.nanosecond, instant.offset_seconds),
                )
                &&& inputs.year@ == signed_decimal_spec(civil_year(days))
                &&& inputs.month@ == two_digits_spec(civil_month(days) as nat)
                &&& inputs.day@ == two_digits_spec(civil_day(days) as nat)
                &&& inputs.id == id
                &&& inputs.slug == slug
                &&& inputs.values == values
            },
    {
        let date = match format_calendar_date(&instant) {
            Ok(text) => text,
            Err(e) => return Err(e),
        };
        let date_time = match timestamp::format(instant) {
            Ok(text) => text,
            Err(e) => return Err(e),
        };
        let (y, m, d) = calendar_date(&instant);
        let inputs = TemplateInputs::from_parts(date, date_time, y, m, d, id, slug, values);
        Ok(inputs)
    }
}


/// Whether `k` names one of the built-in template variables.
pub open spec fn builtin_variable(k: Seq<char>) -> bool {
    k == "Date"@ || k == "DateTime"@ || k == "Year"@ || k == "Month"@ || k == "Day"@ || k == "ID"@ || k == "Slug"@
}

/// The variables a template sees bind each built-in name to the matching
/// input, whatever the caller's values hold: `Date` to the date,
/// `DateTime` to the date and time, `Year`, `Month` and `Day` to the year,
/// month and day, `ID` to the identifier and `Slug` to the slug. Every other
/// name is bound exactly as the caller bound it.
pub proof fn lemma_template_variables(input: TemplateInputs)
    ensures
        template_values(input)["Date"@] == input.date@,
        template_values(input)["DateTime"@] == input.date_time@,
        template_values(input)["Year"@] == input.year@,
        template_values(input)["Month"@] == input.month@,
        template_values(input)["Day"@] == input.day@,
        template_values(input)["ID"@] == input.id@,
        template_values(input)["Slug"@] == input.slug@,
        forall|k: Seq<char>|
            !builtin_variable(k) ==> (#[trigger] template_values(input).contains_key(k) == input.values.view().contains_key(k)
                && (input.values.view().contains_key(k) ==> template_values(input)[k] == input.values.view()[k])),
{
    reveal_strlit("Date");
    reveal_strlit("DateTime");
    reveal_strlit("Year");
    reveal_strlit("Month");
    reveal_strlit("Day");
    reveal_strlit("ID");
    reveal_strlit("Slug");
    lemma_builtin_names_differ();
}

/// The built-in variable names differ from one another.
proof fn lemma_builtin_names_differ()
    ensures
        "Date"@ != "DateTime"@, "Date"@ != "Year"@, "Date"@ != "Month"@, "Date"@ != "Day"@, "Date"@ != "ID"@,
        "Date"@ != "Slug"@, "DateTime"@ != "Year"@, "DateTime"@ != "Month"@, "DateTime"@ != "Day"@,
        "DateTime"@ != "ID"@, "DateTime"@ != "Slug"@, "Year"@ != "Month"@, "Year"@ != "Day"@, "Year"@ != "ID"@,
        "Year"@ != "Slug"@, "Month"@ != "Day"@, "Month"@ != "ID"@, "Month"@ != "Slug"@, "Day"@ != "ID"@,
        "Day"@ != "Slug"@, "ID"@ != "Slug"@,
{
    reveal_strlit("Date");
    reveal_strlit("DateTime");
    reveal_strlit("Year");
    reveal_strlit("Month");
    reveal_strlit("Day");
    reveal_strlit("ID");
    reveal_strlit("Slug");
    assert("Date"@.len() == 4 && "DateTime"@.len() == 8 && "Year"@.len() == 4 && "Month"@.len() == 5);
    assert("Day"@.len() == 3 && "ID"@.len() == 2 && "Slug"@.len() == 4);
    assert("Date"@[0] != "Year"@[0] && "Date"@[0] != "Slug"@[0] && "Year"@[0] != "Slug"@[0]);
}


/// Replacing a pattern whose first character `s` lacks leaves `s` as it is.
proof fn lemma_replace_absent(s: Seq<char>, p: Seq<char>, r: Seq<char>)
    requires
        p.len() > 0,
        forall|i: int| 0 <= i < s.len() ==> #[trigger] s[i] != p[0],
    ensures
        replace_spec(s, p, r) == s,
    decreases s.len(),
{
    if s.len() >= p.len() {
        assert(s.take(p.len() as int)[0] == s[0]);
        let rest = s.skip(1);
        assert forall|i: int| 0 <= i < rest.len() implies #[trigger] rest[i] != p[0] by {
            assert(rest[i] == s[i + 1]);
        }
        lemma_replace_absent(rest, p, r);
        assert(seq![s[0]] + rest =~= s);
    }
}

/// Text without `{` holds no placeholder, so substituting leaves it alone.
proof fn lemma_substitute_plain(s: Seq<char>, keys: Seq<Seq<char>>, values: Map<Seq<char>, Seq<char>>)
    requires
        forall|i: int| 0 <= i < s.len() ==> #[trigger] s[i] != '{',
    ensures
        substitute(s, keys, values) == s,
    decreases keys.len(),
{
    if keys.len() > 0 {
        lemma_replace_absent(s, placeholder_spec(keys[0]), values[keys[0]]);
        lemma_substitute_plain(s, keys.drop_first(), values);
    }
}

/// The only placeholder in the template `{{name}}` is that of `name`
/// itself, where `name` has no braces.
proof fn lemma_replace_in_placeholder(name: Seq<char>, k: Seq<char>, v: Seq<char>)
    requires
        name.len() > 0,
        forall|i: int| 0 <= i < name.len() ==> #[trigger] name[i] != '{' && name[i] != '}',
        k != name,
    ensures
        replace_spec(placeholder_spec(name), placeholder_spec(k), v) == placeholder_spec(name),
{
    let t = placeholder_spec(name);
    let p = placeholder_spec(k);
    if t.len() >= p.len() {
        assert(t.take(p.len() as int) != p) by {
            if t.take(p.len() as int) == p {
                if k.len() == name.len() {
                    assert forall|i: int| 0 <= i < k.len() implies k[i] == name[i] by {
                        assert(t.take(p.len() as int)[i + 2] == p[i + 2]);
                    }
                    assert(k =~= name);
                } else {
                    assert(t.take(p.len() as int)[k.len() + 2int] == p[k.len() + 2int]);
                }
            }
        }
        let t1 = t.skip(1);
        assert(replace_spec(t, p, v) == seq![t[0]] + replace_spec(t1, p, v));
        assert(t1[0] == '{' && t1[1] == name[0]);
        let t2 = t1.skip(1);
        assert forall|i: int| 0 <= i < t2.len() implies #[trigger] t2[i] != p[0] by {
            if i < name.len() {
                assert(t2[i] == name[i]);
            }
        }
        lemma_replace_absent(t2, p, v);
        if t1.len() >= p.len() {
            assert(t1.take(p.len() as int)[1] == t1[1]);
            assert(t1.take(p.len() as int) != p);
            assert(replace_spec(t1, p, v) == seq![t1[0]] + replace_spec(t2, p, v));
            assert(seq![t1[0]] + t2 =~= t1);
        }
        assert(seq![t[0]] + t1 =~= t);
    }
}

/// Substituting into `{{name}}` gives the value of `name` when the keys
/// include it once and its value has no `{`, and leaves it otherwise.
proof fn lemma_substitute_placeholder(name: Seq<char>, keys: Seq<Seq<char>>, values: Map<Seq<char>, Seq<char>>)
    requires
        name.len() > 0,
        forall|i: int| 0 <= i < name.len() ==> #[trigger] name[i] != '{' && name[i] != '}',
        keys.no_duplicates(),
        forall|i: int| 0 <= i < values[name].len() ==> #[trigger] values[name][i] != '{',
    ensures
        substitute(placeholder_spec(name), keys, values) == if keys.contains(name) {
            values[name]
        } else {
            placeholder_spec(name)
        },
    decreases keys.len(),
{
    if keys.len() > 0 {
        let rest = keys.drop_first();
        assert(rest.no_duplicates());
        if keys[0] == name {
            let t = placeholder_spec(name);
            assert(t.take(t.len() as int) =~= t);
            assert(t.skip(t.len() as int) =~= Seq::<char>::empty());
            assert(replace_spec(t, t, values[name]) == values[name] + replace_spec(Seq::<char>::empty(), t, values[name]));
            assert(values[name] + Seq::<char>::empty() =~= values[name]);
            lemma_substitute_plain(values[name], rest, values);
        } else {
            lemma_replace_in_placeholder(name, keys[0], values[keys[0]]);
            lemma_substitute_placeholder(name, rest, values);
            assert(keys.contains(name) == rest.contains(name)) by {
                if keys.contains(name) {
                    let j = choose|j: int| 0 <= j < keys.len() && keys[j] == name;
                    assert(rest[j - 1] == name);
                }
                if rest.contains(name) {
                    let j = choose|j: int| 0 <= j < rest.len() && rest[j] == name;
                    assert(keys[j + 1] == name);
                }
            }
        }
    }
}

proof fn lemma_push_set(v: Seq<Seq<char>>, x: Seq<char>)
    ensures
        v.push(x).to_set() == v.to_set().insert(x),
{
    assert forall|y: Seq<char>| #[trigger] v.push(x).to_set().contains(y) == v.to_set().insert(x).contains(y) by {
        if v.push(x).contains(y) && y != x {
            let j = choose|j: int| 0 <= j < v.push(x).len() && v.push(x)[j] == y;
            assert(v[j] == y);
        }
        if v.contains(y) {
            let j = choose|j: int| 0 <= j < v.len() && v[j] == y;
            assert(v.push(x)[j] == y);
        }
        if y == x {
            assert(v.push(x)[v.len() as int] == x);
        }
    }
    assert(v.push(x).to_set() =~= v.to_set().insert(x));
}

/// A strictly sorted sequence stays strictly sorted when a larger element
/// is added at its end.
proof fn lemma_sorted_push(v: Seq<Seq<char>>, y: Seq<char>)
    requires
        strictly_sorted(v),
        forall|k: int| 0 <= k < v.len() ==> lex_order(#[trigger] v[k], y) < 0,
    ensures
        strictly_sorted(v.push(y)),
{
    assert forall|a: int, b: int| 0 <= a < b < v.push(y).len() implies lex_order(#[trigger] v.push(y)[a], #[trigger] v.push(y)[b]) < 0 by {
        if b == v.len() {
            assert(v.push(y)[a] == v[a]);
        } else {
            assert(v.push(y)[a] == v[a] && v.push(y)[b] == v[b]);
        }
    }
}

/// Any finite set of names that a sorted sequence lists, with one more,
/// is listed by some sorted sequence.
proof fn lemma_sorted_with(v: Seq<Seq<char>>, x: Seq<char>)
    requires
        strictly_sorted(v),
    ensures
        exists|w: Seq<Seq<char>>| strictly_sorted(w) && w.to_set() == v.to_set().insert(x),
    decreases v.len(),
{
    if v.len() == 0 {
        let w = seq![x];
        lemma_push_set(v, x);
        assert(v.push(x) =~= w);
        assert(strictly_sorted(w));
    } else {
        let last = v.last();
        let init = v.drop_last();
        assert(strictly_sorted(init)) by {
            assert forall|a: int, b: int| 0 <= a < b < init.len() implies lex_order(#[trigger] init[a], #[trigger] init[b]) < 0 by {
                assert(init[a] == v[a] && init[b] == v[b]);
            }
        }
        assert forall|k: int| 0 <= k < init.len() implies lex_order(#[trigger] init[k], last) < 0 by {
            assert(init[k] == v[k]);
        }
        assert(v =~= init.push(last));
        lemma_lex_order_antisym(last, x);
        if lex_order(last, x) == 0 {
            assert(v.to_set().insert(x) =~= v.to_set());
        } else if lex_order(last, x) < 0 {
            assert forall|k: int| 0 <= k < v.len() implies lex_order(#[trigger] v[k], x) < 0 by {
                if k < v.len() - 1 {
                    assert(v[k] == init[k]);
                    lemma_lex_order_trans(v[k], last, x);
                }
            }
            lemma_sorted_push(v, x);
            lemma_push_set(v, x);
        } else {
            lemma_sorted_with(init, x);
            let w0 = choose|w: Seq<Seq<char>>| strictly_sorted(w) && w.to_set() == init.to_set().insert(x);
            assert forall|k: int| 0 <= k < w0.len() implies lex_order(#[trigger] w0[k], last) < 0 by {
                assert(w0.to_set().contains(w0[k]));
                if w0[k] != x {
                    let j = choose|j: int| 0 <= j < init.len() && init[j] == w0[k];
                }
            }
            lemma_sorted_push(w0, last);
            lemma_push_set(w0, last);
            lemma_push_set(init, last);
            assert(w0.push(last).to_set() =~= v.to_set().insert(x));
        }
    }
}

proof fn lemma_sorted_keys_with(v: Seq<Seq<char>>, x: Seq<char>) -> (w: Seq<Seq<char>>)
    requires
        strictly_sorted(v),
    ensures
        strictly_sorted(w),
        w.to_set() == v.to_set().insert(x),
{
    lemma_sorted_with(v, x);
    choose|w: Seq<Seq<char>>| strictly_sorted(w) && w.to_set() == v.to_set().insert(x)
}

/// Rendering the placeholder of a variable the template sees gives that
/// variable's value, wherever the name has no braces and the value no `{`
/// (a placeholder it held would be filled in turn).
pub proof fn lemma_render_variable(input: TemplateInputs, name: Seq<char>)
    requires
        input.values.wf(),
        template_values(input).contains_key(name),
        name.len() > 0,
        forall|i: int| 0 <= i < name.len() ==> #[trigger] name[i] != '{' && name[i] != '}',
        forall|i: int| 0 <= i < template_values(input)[name].len() ==> #[trigger] template_values(input)[name][i] != '{',
    ensures
        render_spec(placeholder_spec(name), template_values(input)) == template_values(input)[name],
{
    let m = template_values(input);
    input.values.lemma_entries();
    let k0 = input.values.key_seq();
    let k1 = lemma_sorted_keys_with(k0, "Date"@);
    let k2 = lemma_sorted_keys_with(k1, "DateTime"@);
    let k3 = lemma_sorted_keys_with(k2, "Year"@);
    let k4 = lemma_sorted_keys_with(k3, "Month"@);
    let k5 = lemma_sorted_keys_with(k4, "Day"@);
    let k6 = lemma_sorted_keys_with(k5, "ID"@);
    let k7 = lemma_sorted_keys_with(k6, "Slug"@);
    assert(k7.to_set() =~= m.dom());
    let keys = sorted_keys(m);
    assert(strictly_sorted(keys) && keys.to_set() == m.dom());
    lemma_sorted_no_duplicates(keys);
    assert(keys.to_set().contains(name));
    assert(keys.contains(name));
    lemma_substitute_placeholder(name, keys, m);
}

/// Rendering `{{Day}}` gives the input's day, whatever the caller's values,
/// wherever the day holds no `{`.
pub proof fn lemma_render_builtin_day(input: TemplateInputs)
    requires
        input.values.wf(),
        forall|i: int| 0 <= i < input.day@.len() ==> #[trigger] input.day@[i] != '{',
    ensures
        render_spec("{{Day}}"@, template_values(input)) == input.day@,
{
    reveal_strlit("{{Day}}");
    reveal_strlit("Day");
    lemma_template_variables(input);
    assert("{{Day}}"@ =~= placeholder_spec("Day"@));
    lemma_render_variable(input, "Day"@);
}

} // verus!
