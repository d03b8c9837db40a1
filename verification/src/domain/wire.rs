//! The JSON form of wire values, and its size in bytes.
use vstd::prelude::*;

use crate::domain::model;
use crate::domain::model::{
    Bytes, Category, Counts, Coverage, DirectoryUsage, Entry, EntryView, EventKind, EventView, Field,
    FieldView, FollowPolicy, FsIssue, IssueScope, IssueView, Issues, IssuesView, Kind, ListingPage, Measure,
    MeasureView, Operation, PageView, Phase, Reason, ScanState, SpecialType, UsageView, WaitReason,
    WorkEvent, WorkRecord, WorkView,
};
use crate::text;
use crate::text::{byte_len, numeral};
use crate::text_map;

verus! {

/// The hexadecimal digit of a number below sixteen.
pub open spec fn hex(d: int) -> char {
    if d < 10 {
        text::digit(d as nat)
    } else if d == 10 {
        'a'
    } else if d == 11 {
        'b'
    } else if d == 12 {
        'c'
    } else if d == 13 {
        'd'
    } else if d == 14 {
        'e'
    } else {
        'f'
    }
}

/// How one character stands in a JSON string.
pub open spec fn escape(c: char) -> Seq<char> {
    if c == '"' {
        seq!['\\', '"']
    } else if c == '\\' {
        seq!['\\', '\\']
    } else if c == '\u{8}' {
        seq!['\\', 'b']
    } else if c == '\u{9}' {
        seq!['\\', 't']
    } else if c == '\u{a}' {
        seq!['\\', 'n']
    } else if c == '\u{c}' {
        seq!['\\', 'f']
    } else if c == '\u{d}' {
        seq!['\\', 'r']
    } else if (c as int) < 32 {
        seq!['\\', 'u', '0', '0', hex(c as int / 16), hex(c as int % 16)]
    } else {
        seq![c]
    }
}

/// How a run of characters stands in a JSON string.
pub open spec fn escaped(text: Seq<char>) -> Seq<char>
    decreases text.len(),
{
    if text.len() == 0 {
        Seq::empty()
    } else {
        escaped(text.drop_last()) + escape(text.last())
    }
}

/// A text as a JSON string.
pub open spec fn quoted(text: Seq<char>) -> Seq<char> {
    seq!['"'] + escaped(text) + seq!['"']
}

/// `serde_json::to_string` on a `str`. Its source writes a quotation mark, then every character
/// as it is except that a quotation mark, a backslash and the control characters below U+0020
/// are escaped (by their short form where JSON has one, else as four lower-case hexadecimal
/// digits), then a quotation mark. Writing a string into memory cannot fail.
#[verifier::external_body]
fn quote(text: &str) -> (json: String)
    ensures
        json@ == quoted(text@),
{
    serde_json::to_string(text).expect("a string serializes")
}

/// The size of a text as a JSON string.
pub fn quoted_len(text: &str) -> (len: usize)
    ensures
        len == json_len(quoted(text@)),
{
    byte_len(quote(text).as_str())
}

/// JSON texts with commas between them.
pub open spec fn listed(items: Seq<Seq<char>>) -> Seq<char>
    decreases items.len(),
{
    if items.len() == 0 {
        Seq::empty()
    } else if items.len() == 1 {
        items[0]
    } else {
        listed(items.drop_last()) + ","@ + items.last()
    }
}

/// A JSON array.
pub open spec fn array(items: Seq<Seq<char>>) -> Seq<char> {
    Seq::<char>::empty() + "["@ + listed(items) + "]"@
}

/// Puts commas between JSON texts and brackets around them.
fn encode_array(items: &Vec<String>) -> (json: String)
    ensures
        json@ == array(model::views(items@)),
{
    let ghost texts = model::views(items@);
    let mut body = String::new();
    let mut i: usize = 0;
    while i < items.len()
        invariant
            i <= items.len(),
            texts == model::views(items@),
            body@ == listed(texts.take(i as int)),
        decreases items.len() - i,
    {
        let ghost next = texts.take(i + 1);
        assert(next.drop_last() =~= texts.take(i as int));
        if i > 0 {
            body.append(",");
        } else {
            assert(body@ =~= Seq::<char>::empty());
        }
        body.append(items[i].as_str());
        assert(next.last() == items@[i as int]@);
        if i == 0 {
            assert(body@ =~= next[0]);
        }
        i = i + 1;
    }
    assert(texts.take(i as int) =~= texts);
    let mut json = String::new();
    json.append("[");
    json.append(body.as_str());
    json.append("]");
    json
}

/// A number as a JSON string.
pub open spec fn bytes_text(value: nat) -> Seq<char> {
    quoted(text::decimal(value))
}

fn encode_bytes(value: &Bytes) -> (json: String)
    ensures
        json@ == bytes_text(value@),
{
    quote(value.text())
}

/// A text, or null.
pub open spec fn optional_json(text: Option<Seq<char>>) -> Seq<char> {
    match text {
        Some(text) => quoted(text),
        None => "null"@,
    }
}

fn encode_optional(text: &Option<String>) -> (json: String)
    ensures
        json@ == optional_json(text::optional_text(*text)),
{
    match text {
        Some(text) => quote(text.as_str()),
        None => "null".to_owned(),
    }
}

/// A signed number.
pub open spec fn signed(value: int) -> Seq<char> {
    if value < 0 {
        "-"@ + text::decimal((-value) as nat)
    } else {
        text::decimal(value as nat)
    }
}

fn encode_signed(value: i32) -> (json: String)
    ensures
        json@ == signed(value as int),
{
    if value < 0 {
        let mut json = "-".to_owned();
        json.append(numeral((-(value as i64)) as u128).as_str());
        json
    } else {
        numeral(value as u128)
    }
}

/// A truth value.
pub open spec fn bool_json(value: bool) -> Seq<char> {
    if value {
        "true"@
    } else {
        "false"@
    }
}

fn encode_bool(value: bool) -> (json: String)
    ensures
        json@ == bool_json(value),
{
    if value {
        "true".to_owned()
    } else {
        "false".to_owned()
    }
}

/// The wire name of a `Reason`, in quotation marks.
pub open spec fn reason_json(value: Reason) -> Seq<char> {
    match value {
        Reason::Scanning => "\"scanning\""@,
        Reason::ReadError => "\"readError\""@,
        Reason::Cancelled => "\"cancelled\""@,
        Reason::Unsupported => "\"unsupported\""@,
        Reason::ChangedDuringScan => "\"changedDuringScan\""@,
        Reason::Overflow => "\"overflow\""@,
        Reason::ResourceLimit => "\"resourceLimit\""@,
        Reason::ExcludedByPolicy => "\"excludedByPolicy\""@,
    }
}

fn encode_reason(value: Reason) -> (json: &'static str)
    ensures
        json@ == reason_json(value),
{
    match value {
        Reason::Scanning => "\"scanning\"",
        Reason::ReadError => "\"readError\"",
        Reason::Cancelled => "\"cancelled\"",
        Reason::Unsupported => "\"unsupported\"",
        Reason::ChangedDuringScan => "\"changedDuringScan\"",
        Reason::Overflow => "\"overflow\"",
        Reason::ResourceLimit => "\"resourceLimit\"",
        Reason::ExcludedByPolicy => "\"excludedByPolicy\"",
    }
}

/// The wire name of a `Kind`, in quotation marks.
pub open spec fn kind_json(value: Kind) -> Seq<char> {
    match value {
        Kind::Directory => "\"directory\""@,
        Kind::RegularFile => "\"regularFile\""@,
        Kind::Symlink => "\"symlink\""@,
        Kind::Other => "\"other\""@,
        Kind::Unknown => "\"unknown\""@,
    }
}

fn encode_kind(value: Kind) -> (json: &'static str)
    ensures
        json@ == kind_json(value),
{
    match value {
        Kind::Directory => "\"directory\"",
        Kind::RegularFile => "\"regularFile\"",
        Kind::Symlink => "\"symlink\"",
        Kind::Other => "\"other\"",
        Kind::Unknown => "\"unknown\"",
    }
}

/// The wire name of a `SpecialType`, in quotation marks.
pub open spec fn special_type_json(value: SpecialType) -> Seq<char> {
    match value {
        SpecialType::Ordinary => "\"none\""@,
        SpecialType::MacAlias => "\"macAlias\""@,
        SpecialType::MacPackage => "\"macPackage\""@,
        SpecialType::LinuxDesktopEntry => "\"linuxDesktopEntry\""@,
        SpecialType::Other => "\"other\""@,
    }
}

fn encode_special_type(value: SpecialType) -> (json: &'static str)
    ensures
        json@ == special_type_json(value),
{
    match value {
        SpecialType::Ordinary => "\"none\"",
        SpecialType::MacAlias => "\"macAlias\"",
        SpecialType::MacPackage => "\"macPackage\"",
        SpecialType::LinuxDesktopEntry => "\"linuxDesktopEntry\"",
        SpecialType::Other => "\"other\"",
    }
}

/// The wire name of a `Phase`, in quotation marks.
pub open spec fn phase_json(value: Phase) -> Seq<char> {
    match value {
        Phase::Queued => "\"queued\""@,
        Phase::Running => "\"running\""@,
        Phase::Completed => "\"completed\""@,
        Phase::Failed => "\"failed\""@,
        Phase::Cancelled => "\"cancelled\""@,
    }
}

fn encode_phase(value: Phase) -> (json: &'static str)
    ensures
        json@ == phase_json(value),
{
    match value {
        Phase::Queued => "\"queued\"",
        Phase::Running => "\"running\"",
        Phase::Completed => "\"completed\"",
        Phase::Failed => "\"failed\"",
        Phase::Cancelled => "\"cancelled\"",
    }
}

/// The wire name of a `Operation`, in quotation marks.
pub open spec fn operation_json(value: Operation) -> Seq<char> {
    match value {
        Operation::ListDirectories => "\"listDirectories\""@,
        Operation::ListFiles => "\"listFiles\""@,
        Operation::ScanUsage => "\"scanUsage\""@,
    }
}

fn encode_operation(value: Operation) -> (json: &'static str)
    ensures
        json@ == operation_json(value),
{
    match value {
        Operation::ListDirectories => "\"listDirectories\"",
        Operation::ListFiles => "\"listFiles\"",
        Operation::ScanUsage => "\"scanUsage\"",
    }
}

/// The wire name of a `WaitReason`, in quotation marks.
pub open spec fn wait_reason_json(value: WaitReason) -> Seq<char> {
    match value {
        WaitReason::Draining => "\"draining\""@,
        WaitReason::Slot => "\"slot\""@,
        WaitReason::PageDemand => "\"pageDemand\""@,
    }
}

fn encode_wait_reason(value: WaitReason) -> (json: &'static str)
    ensures
        json@ == wait_reason_json(value),
{
    match value {
        WaitReason::Draining => "\"draining\"",
        WaitReason::Slot => "\"slot\"",
        WaitReason::PageDemand => "\"pageDemand\"",
    }
}

/// The wire name of a `IssueScope`, in quotation marks.
pub open spec fn issue_scope_json(value: IssueScope) -> Seq<char> {
    match value {
        IssueScope::Root => "\"root\""@,
        IssueScope::Entry => "\"entry\""@,
        IssueScope::Subtree => "\"subtree\""@,
    }
}

fn encode_issue_scope(value: IssueScope) -> (json: &'static str)
    ensures
        json@ == issue_scope_json(value),
{
    match value {
        IssueScope::Root => "\"root\"",
        IssueScope::Entry => "\"entry\"",
        IssueScope::Subtree => "\"subtree\"",
    }
}

/// The wire name of a `ScanState`, in quotation marks.
pub open spec fn scan_state_json(value: ScanState) -> Seq<char> {
    match value {
        ScanState::NotRequested => "\"notRequested\""@,
        ScanState::Queued => "\"queued\""@,
        ScanState::Running => "\"running\""@,
        ScanState::Settled => "\"settled\""@,
        ScanState::Failed => "\"failed\""@,
        ScanState::Cancelled => "\"cancelled\""@,
    }
}

fn encode_scan_state(value: ScanState) -> (json: &'static str)
    ensures
        json@ == scan_state_json(value),
{
    match value {
        ScanState::NotRequested => "\"notRequested\"",
        ScanState::Queued => "\"queued\"",
        ScanState::Running => "\"running\"",
        ScanState::Settled => "\"settled\"",
        ScanState::Failed => "\"failed\"",
        ScanState::Cancelled => "\"cancelled\"",
    }
}

/// The wire name of a `FollowPolicy`, in quotation marks.
pub open spec fn follow_policy_json(value: FollowPolicy) -> Seq<char> {
    match value {
        FollowPolicy::Never => "\"never\""@,
    }
}

fn encode_follow_policy(value: FollowPolicy) -> (json: &'static str)
    ensures
        json@ == follow_policy_json(value),
{
    match value {
        FollowPolicy::Never => "\"never\"",
    }
}

/// The wire name of a `Category`, in quotation marks.
pub open spec fn category_json(value: Category) -> Seq<char> {
    match value {
        Category::Directories => "\"directories\""@,
        Category::Files => "\"files\""@,
    }
}

fn encode_category(value: Category) -> (json: &'static str)
    ensures
        json@ == category_json(value),
{
    match value {
        Category::Directories => "\"directories\"",
        Category::Files => "\"files\"",
    }
}

/// The wire name of a `Coverage`, in quotation marks.
pub open spec fn coverage_json(value: Coverage) -> Seq<char> {
    match value {
        Coverage::Complete => "\"complete\""@,
        Coverage::Partial => "\"partial\""@,
    }
}

fn encode_coverage(value: Coverage) -> (json: &'static str)
    ensures
        json@ == coverage_json(value),
{
    match value {
        Coverage::Complete => "\"complete\"",
        Coverage::Partial => "\"partial\"",
    }
}

/// The wire name of a `EventKind`, in quotation marks.
pub open spec fn event_kind_json(value: EventKind) -> Seq<char> {
    match value {
        EventKind::Progress => "\"progress\""@,
        EventKind::UsageChanged => "\"usageChanged\""@,
        EventKind::ListingAvailable => "\"listingAvailable\""@,
        EventKind::Terminal => "\"terminal\""@,
    }
}

fn encode_event_kind(value: EventKind) -> (json: &'static str)
    ensures
        json@ == event_kind_json(value),
{
    match value {
        EventKind::Progress => "\"progress\"",
        EventKind::UsageChanged => "\"usageChanged\"",
        EventKind::ListingAvailable => "\"listingAvailable\"",
        EventKind::Terminal => "\"terminal\"",
    }
}

/// The JSON form of an issue. Absent fields are left out.
#[verifier::opaque]
pub open spec fn issue_json(issue: IssueView) -> Seq<char> {
    let json = Seq::<char>::empty();
    let json = json + "{\"code\":"@ + quoted(issue.code);
    let json = json + ",\"operation\":"@ + quoted(issue.operation);
    let json = json + ",\"scope\":"@ + issue_scope_json(issue.scope);
    let json = if issue.entry_id is Some {
        json + ",\"entryId\":"@ + quoted(issue.entry_id->0)
    } else {
        json
    };
    let json = if issue.native_code is Some {
        json + ",\"nativeCode\":"@ + signed(issue.native_code->0 as int)
    } else {
        json
    };
    json + "}"@
}

/// The JSON form of an issue. Absent fields are left out.
pub fn encode_issue(issue: &FsIssue) -> (json: String)
    ensures
        json@ == issue_json(issue@),
{
    proof {
        reveal(issue_json);
    }
    let mut json = String::new();
    json.append("{\"code\":");
    json.append(quote(issue.code.as_str()).as_str());
    json.append(",\"operation\":");
    json.append(quote(issue.operation.as_str()).as_str());
    json.append(",\"scope\":");
    json.append(encode_issue_scope(issue.scope));
    if let Some(entry_id) = &issue.entry_id {
        json.append(",\"entryId\":");
        json.append(quote(entry_id.as_str()).as_str());
    }
    if let Some(native_code) = issue.native_code {
        json.append(",\"nativeCode\":");
        json.append(encode_signed(native_code).as_str());
    }
    json.append("}");
    json
}

/// The JSON form of a field.
pub open spec fn flag_field_json(field: FieldView<bool>) -> Seq<char> {
    match field {
        FieldView::Known { value } => "{\"state\":\"known\",\"value\":"@ + bool_json(value) + "}"@,
        FieldView::Unknown => "{\"state\":\"unknown\"}"@,
        FieldView::Unsupported => "{\"state\":\"unsupported\"}"@,
        FieldView::Error { issue } => "{\"state\":\"error\",\"issue\":"@ + issue_json(issue) + "}"@,
    }
}

fn encode_flag_field(field: &Field<bool>) -> (json: String)
    ensures
        json@ == flag_field_json(field@),
{
    match field {
        Field::Known { value } => {
            let mut json = "{\"state\":\"known\",\"value\":".to_owned();
            json.append(encode_bool(*value).as_str());
            json.append("}");
            json
        },
        Field::Unknown => "{\"state\":\"unknown\"}".to_owned(),
        Field::Unsupported => "{\"state\":\"unsupported\"}".to_owned(),
        Field::Error { issue } => {
            let mut json = "{\"state\":\"error\",\"issue\":".to_owned();
            json.append(encode_issue(issue).as_str());
            json.append("}");
            json
        },
    }
}

/// The JSON form of a field.
pub open spec fn special_field_json(field: FieldView<SpecialType>) -> Seq<char> {
    match field {
        FieldView::Known { value } => "{\"state\":\"known\",\"value\":"@ + special_type_json(value) + "}"@,
        FieldView::Unknown => "{\"state\":\"unknown\"}"@,
        FieldView::Unsupported => "{\"state\":\"unsupported\"}"@,
        FieldView::Error { issue } => "{\"state\":\"error\",\"issue\":"@ + issue_json(issue) + "}"@,
    }
}

fn encode_special_field(field: &Field<SpecialType>) -> (json: String)
    ensures
        json@ == special_field_json(field@),
{
    match field {
        Field::Known { value } => {
            let mut json = "{\"state\":\"known\",\"value\":".to_owned();
            json.append(encode_special_type(*value));
            json.append("}");
            json
        },
        Field::Unknown => "{\"state\":\"unknown\"}".to_owned(),
        Field::Unsupported => "{\"state\":\"unsupported\"}".to_owned(),
        Field::Error { issue } => {
            let mut json = "{\"state\":\"error\",\"issue\":".to_owned();
            json.append(encode_issue(issue).as_str());
            json.append("}");
            json
        },
    }
}

/// The JSON form of a field.
pub open spec fn text_field_json(field: FieldView<Seq<char>>) -> Seq<char> {
    match field {
        FieldView::Known { value } => "{\"state\":\"known\",\"value\":"@ + quoted(value) + "}"@,
        FieldView::Unknown => "{\"state\":\"unknown\"}"@,
        FieldView::Unsupported => "{\"state\":\"unsupported\"}"@,
        FieldView::Error { issue } => "{\"state\":\"error\",\"issue\":"@ + issue_json(issue) + "}"@,
    }
}

fn encode_text_field(field: &Field<String>) -> (json: String)
    ensures
        json@ == text_field_json(field@),
{
    match field {
        Field::Known { value } => {
            let mut json = "{\"state\":\"known\",\"value\":".to_owned();
            json.append(quote(value.as_str()).as_str());
            json.append("}");
            json
        },
        Field::Unknown => "{\"state\":\"unknown\"}".to_owned(),
        Field::Unsupported => "{\"state\":\"unsupported\"}".to_owned(),
        Field::Error { issue } => {
            let mut json = "{\"state\":\"error\",\"issue\":".to_owned();
            json.append(encode_issue(issue).as_str());
            json.append("}");
            json
        },
    }
}

/// The JSON form of a field.
pub open spec fn bytes_field_json(field: FieldView<nat>) -> Seq<char> {
    match field {
        FieldView::Known { value } => "{\"state\":\"known\",\"value\":"@ + bytes_text(value) + "}"@,
        FieldView::Unknown => "{\"state\":\"unknown\"}"@,
        FieldView::Unsupported => "{\"state\":\"unsupported\"}"@,
        FieldView::Error { issue } => "{\"state\":\"error\",\"issue\":"@ + issue_json(issue) + "}"@,
    }
}

fn encode_bytes_field(field: &Field<Bytes>) -> (json: String)
    ensures
        json@ == bytes_field_json(field@),
{
    match field {
        Field::Known { value } => {
            let mut json = "{\"state\":\"known\",\"value\":".to_owned();
            json.append(encode_bytes(value).as_str());
            json.append("}");
            json
        },
        Field::Unknown => "{\"state\":\"unknown\"}".to_owned(),
        Field::Unsupported => "{\"state\":\"unsupported\"}".to_owned(),
        Field::Error { issue } => {
            let mut json = "{\"state\":\"error\",\"issue\":".to_owned();
            json.append(encode_issue(issue).as_str());
            json.append("}");
            json
        },
    }
}

/// The JSON form of an entry.
#[verifier::opaque]
pub open spec fn entry_json(entry: EntryView) -> Seq<char> {
    let json = Seq::<char>::empty();
    let json = json + "{\"entryId\":"@ + quoted(entry.entry_id);
    let json = json + ",\"parentId\":"@ + optional_json(entry.parent_id);
    let json = json + ",\"displayName\":"@ + quoted(entry.display_name);
    let json = json + ",\"kind\":"@ + kind_json(entry.kind);
    let json = json + ",\"hidden\":"@ + flag_field_json(entry.hidden);
    let json = json + ",\"specialType\":"@ + special_field_json(entry.special_type);
    let json = json + ",\"modifiedAt\":"@ + text_field_json(entry.modified_at);
    let json = json + ",\"ownLogicalBytes\":"@ + bytes_field_json(entry.own_logical_bytes);
    let json = json + ",\"ownAllocatedBytes\":"@ + bytes_field_json(entry.own_allocated_bytes);
    let json = json + ",\"observedAt\":"@ + quoted(entry.observed_at);
    let json = json + ",\"followPolicy\":"@ + follow_policy_json(entry.follow_policy);
    json + "}"@
}

/// The JSON form of an entry.
pub fn encode_entry(entry: &Entry) -> (json: String)
    ensures
        json@ == entry_json(entry@),
{
    proof {
        reveal(entry_json);
    }
    let mut json = String::new();
    json.append("{\"entryId\":");
    json.append(quote(entry.entry_id.as_str()).as_str());
    json.append(",\"parentId\":");
    json.append(encode_optional(&entry.parent_id).as_str());
    json.append(",\"displayName\":");
    json.append(quote(entry.display_name.as_str()).as_str());
    json.append(",\"kind\":");
    json.append(encode_kind(entry.kind));
    json.append(",\"hidden\":");
    json.append(encode_flag_field(&entry.hidden).as_str());
    json.append(",\"specialType\":");
    json.append(encode_special_field(&entry.special_type).as_str());
    json.append(",\"modifiedAt\":");
    json.append(encode_text_field(&entry.modified_at).as_str());
    json.append(",\"ownLogicalBytes\":");
    json.append(encode_bytes_field(&entry.own_logical_bytes).as_str());
    json.append(",\"ownAllocatedBytes\":");
    json.append(encode_bytes_field(&entry.own_allocated_bytes).as_str());
    json.append(",\"observedAt\":");
    json.append(quote(entry.observed_at.as_str()).as_str());
    json.append(",\"followPolicy\":");
    json.append(encode_follow_policy(entry.follow_policy));
    json.append("}");
    json
}

/// The wire names of reasons.
pub open spec fn reason_texts(reasons: Seq<Reason>) -> Seq<Seq<char>> {
    Seq::new(reasons.len(), |i: int| reason_json(reasons[i]))
}

fn encode_reasons(reasons: &Vec<Reason>) -> (json: String)
    ensures
        json@ == array(reason_texts(reasons@)),
{
    let mut items: Vec<String> = Vec::new();
    let mut i: usize = 0;
    while i < reasons.len()
        invariant
            i <= reasons.len(),
            model::views(items@) =~= reason_texts(reasons@).take(i as int),
        decreases reasons.len() - i,
    {
        let ghost done = items@;
        assert(model::views(done).len() == done.len());
        let item = encode_reason(reasons[i]).to_owned();
        items.push(item);
        i = i + 1;
        assert(model::views(items@) =~= model::views(done).push(item@));
    }
    assert(reason_texts(reasons@).take(i as int) =~= reason_texts(reasons@));
    encode_array(&items)
}

/// The JSON form of a measurement.
pub open spec fn measure_json(measure: MeasureView) -> Seq<char> {
    match measure {
        MeasureView::Unknown => "{\"state\":\"unknown\"}"@,
        MeasureView::Complete { bytes } => "{\"state\":\"complete\",\"bytes\":"@ + bytes_text(bytes) + "}"@,
        MeasureView::Partial { observed_bytes, reasons } => "{\"state\":\"partial\",\"observedBytes\":"@
            + bytes_text(observed_bytes) + ",\"reasons\":"@ + array(reason_texts(reasons)) + "}"@,
        MeasureView::Unavailable { reason } => "{\"state\":\"unavailable\",\"reason\":"@
            + reason_json(reason) + "}"@,
    }
}

/// The JSON form of a measurement.
pub fn encode_measure(measure: &Measure) -> (json: String)
    ensures
        json@ == measure_json(measure@),
{
    match measure {
        Measure::Unknown => "{\"state\":\"unknown\"}".to_owned(),
        Measure::Complete { bytes } => {
            let mut json = "{\"state\":\"complete\",\"bytes\":".to_owned();
            json.append(encode_bytes(bytes).as_str());
            json.append("}");
            json
        },
        Measure::Partial { observed_bytes, reasons } => {
            let mut json = "{\"state\":\"partial\",\"observedBytes\":".to_owned();
            json.append(encode_bytes(observed_bytes).as_str());
            json.append(",\"reasons\":");
            json.append(encode_reasons(reasons).as_str());
            json.append("}");
            json
        },
        Measure::Unavailable { reason } => {
            let mut json = "{\"state\":\"unavailable\",\"reason\":".to_owned();
            json.append(encode_reason(*reason));
            json.append("}");
            json
        },
    }
}

/// One member of the object of counts.
pub open spec fn count_json(row: (Seq<char>, nat)) -> Seq<char> {
    Seq::<char>::empty() + quoted(row.0) + ":"@ + bytes_text(row.1)
}

/// The members of the object of counts, in the order of the codes.
pub open spec fn count_texts(rows: Seq<(Seq<char>, nat)>) -> Seq<Seq<char>> {
    Seq::new(rows.len(), |i: int| count_json(rows[i]))
}

/// The JSON form of counts.
pub open spec fn counts_json(counts: Map<Seq<char>, nat>) -> Seq<char> {
    Seq::<char>::empty() + "{"@ + listed(count_texts(text_map::rows_of(counts))) + "}"@
}

fn encode_counts(counts: &Counts) -> (json: String)
    ensures
        json@ == counts_json(counts@),
{
    let len: usize = counts.len();
    let ghost texts = count_texts(counts.rows());
    let mut body = String::new();
    let mut i: usize = 0;
    while i < len
        invariant
            i <= len,
            len == counts.rows().len(),
            texts == count_texts(counts.rows()),
            body@ == listed(texts.take(i as int)),
        decreases len - i,
    {
        let ghost next = texts.take(i + 1);
        assert(next.drop_last() =~= texts.take(i as int));
        if i > 0 {
            body.append(",");
        } else {
            assert(body@ =~= Seq::<char>::empty());
        }
        let mut item = String::new();
        item.append(quote(counts.code_at(i).as_str()).as_str());
        item.append(":");
        item.append(encode_bytes(counts.count_at(i)).as_str());
        assert(item@ == next.last());
        body.append(item.as_str());
        if i == 0 {
            assert(body@ =~= next[0]);
        }
        i = i + 1;
    }
    assert(texts.take(i as int) =~= texts);
    let mut json = String::new();
    json.append("{");
    json.append(body.as_str());
    json.append("}");
    json
}

/// The JSON forms of issues.
pub open spec fn issue_texts(issues: Seq<IssueView>) -> Seq<Seq<char>> {
    Seq::new(issues.len(), |i: int| issue_json(issues[i]))
}

fn encode_samples(samples: &Vec<FsIssue>) -> (json: String)
    ensures
        json@ == array(issue_texts(model::views(samples@))),
{
    let ghost texts = issue_texts(model::views(samples@));
    let mut items: Vec<String> = Vec::new();
    let mut i: usize = 0;
    while i < samples.len()
        invariant
            i <= samples.len(),
            texts == issue_texts(model::views(samples@)),
            model::views(items@) =~= texts.take(i as int),
        decreases samples.len() - i,
    {
        let ghost done = items@;
        assert(model::views(done).len() == done.len());
        let item = encode_issue(&samples[i]);
        items.push(item);
        i = i + 1;
        assert(model::views(items@) =~= model::views(done).push(item@));
        assert(texts[i - 1] == item@);
    }
    assert(texts.take(i as int) =~= texts);
    encode_array(&items)
}

/// The JSON form of issues.
#[verifier::opaque]
pub open spec fn issues_json(issues: IssuesView) -> Seq<char> {
    Seq::<char>::empty() + "{\"counts\":"@ + counts_json(issues.counts) + ",\"samples\":"@ + array(
        issue_texts(issues.samples),
    ) + "}"@
}

/// The JSON form of issues.
pub fn encode_issues(issues: &Issues) -> (json: String)
    ensures
        json@ == issues_json(issues@),
{
    proof {
        reveal(issues_json);
    }
    let mut json = String::new();
    json.append("{\"counts\":");
    json.append(encode_counts(&issues.counts).as_str());
    json.append(",\"samples\":");
    json.append(encode_samples(&issues.samples).as_str());
    json.append("}");
    json
}

/// The JSON form of a work record.
#[verifier::opaque]
pub open spec fn work_json(work: WorkView) -> Seq<char> {
    let json = Seq::<char>::empty();
    let json = json + "{\"sessionId\":"@ + quoted(work.session_id);
    let json = json + ",\"generation\":"@ + text::decimal(work.generation as nat);
    let json = json + ",\"taskId\":"@ + quoted(work.task_id);
    let json = json + ",\"operation\":"@ + operation_json(work.operation);
    let json = json + ",\"targetId\":"@ + quoted(work.target_id);
    let json = json + ",\"phase\":"@ + phase_json(work.phase);
    let json = if work.wait_reason is Some {
        json + ",\"waitReason\":"@ + wait_reason_json(work.wait_reason->0)
    } else {
        json
    };
    let json = json + ",\"sequence\":"@ + text::decimal(work.sequence as nat);
    let json = json + ",\"processedEntries\":"@ + bytes_text(work.processed_entries);
    let json = json + ",\"processedDirectories\":"@ + bytes_text(work.processed_directories);
    let json = json + ",\"observedAt\":"@ + quoted(work.observed_at);
    let json = json + ",\"issues\":"@ + issues_json(work.issues);
    json + "}"@
}

/// The JSON form of a work record.
pub fn encode_work(work: &WorkRecord) -> (json: String)
    ensures
        json@ == work_json(work@),
{
    proof {
        reveal(work_json);
    }
    let mut json = String::new();
    json.append("{\"sessionId\":");
    json.append(quote(work.session_id.as_str()).as_str());
    json.append(",\"generation\":");
    json.append(numeral(work.generation as u128).as_str());
    json.append(",\"taskId\":");
    json.append(quote(work.task_id.as_str()).as_str());
    json.append(",\"operation\":");
    json.append(encode_operation(work.operation));
    json.append(",\"targetId\":");
    json.append(quote(work.target_id.as_str()).as_str());
    json.append(",\"phase\":");
    json.append(encode_phase(work.phase));
    if let Some(wait_reason) = work.wait_reason {
        json.append(",\"waitReason\":");
        json.append(encode_wait_reason(wait_reason));
    }
    json.append(",\"sequence\":");
    json.append(numeral(work.sequence as u128).as_str());
    json.append(",\"processedEntries\":");
    json.append(encode_bytes(&work.processed_entries).as_str());
    json.append(",\"processedDirectories\":");
    json.append(encode_bytes(&work.processed_directories).as_str());
    json.append(",\"observedAt\":");
    json.append(quote(work.observed_at.as_str()).as_str());
    json.append(",\"issues\":");
    json.append(encode_issues(&work.issues).as_str());
    json.append("}");
    json
}

/// The JSON form of a measured usage.
#[verifier::opaque]
pub open spec fn usage_json(usage: UsageView) -> Seq<char> {
    let json = Seq::<char>::empty();
    let json = json + "{\"directoryId\":"@ + quoted(usage.directory_id);
    let json = json + ",\"usageRevision\":"@ + text::decimal(usage.usage_revision as nat);
    let json = json + ",\"scanState\":"@ + scan_state_json(usage.scan_state);
    let json = json + ",\"logical\":"@ + measure_json(usage.logical);
    let json = json + ",\"allocated\":"@ + measure_json(usage.allocated);
    let json = json + ",\"observedAt\":"@ + quoted(usage.observed_at);
    json + "}"@
}

/// The JSON form of a measured usage.
pub fn encode_usage(usage: &DirectoryUsage) -> (json: String)
    ensures
        json@ == usage_json(usage@),
{
    proof {
        reveal(usage_json);
    }
    let mut json = String::new();
    json.append("{\"directoryId\":");
    json.append(quote(usage.directory_id.as_str()).as_str());
    json.append(",\"usageRevision\":");
    json.append(numeral(usage.usage_revision as u128).as_str());
    json.append(",\"scanState\":");
    json.append(encode_scan_state(usage.scan_state));
    json.append(",\"logical\":");
    json.append(encode_measure(&usage.logical).as_str());
    json.append(",\"allocated\":");
    json.append(encode_measure(&usage.allocated).as_str());
    json.append(",\"observedAt\":");
    json.append(quote(usage.observed_at.as_str()).as_str());
    json.append("}");
    json
}

/// The JSON forms of a list.
pub open spec fn entry_texts(items: Seq<EntryView>) -> Seq<Seq<char>> {
    Seq::new(items.len(), |i: int| entry_json(items[i]))
}

/// The JSON array of a list.
pub fn encode_entries(items: &Vec<Entry>) -> (json: String)
    ensures
        json@ == array(entry_texts(model::views(items@))),
{
    let ghost texts = entry_texts(model::views(items@));
    let mut parts: Vec<String> = Vec::new();
    let mut i: usize = 0;
    while i < items.len()
        invariant
            i <= items.len(),
            texts == entry_texts(model::views(items@)),
            model::views(parts@) =~= texts.take(i as int),
        decreases items.len() - i,
    {
        let ghost done = parts@;
        assert(model::views(done).len() == done.len());
        let part = encode_entry(&items[i]);
        parts.push(part);
        i = i + 1;
        assert(model::views(parts@) =~= model::views(done).push(part@));
        assert(texts[i - 1] == part@);
    }
    assert(texts.take(i as int) =~= texts);
    encode_array(&parts)
}

/// The JSON forms of a list.
pub open spec fn usage_texts(items: Seq<UsageView>) -> Seq<Seq<char>> {
    Seq::new(items.len(), |i: int| usage_json(items[i]))
}

/// The JSON array of a list.
pub fn encode_usages(items: &Vec<DirectoryUsage>) -> (json: String)
    ensures
        json@ == array(usage_texts(model::views(items@))),
{
    let ghost texts = usage_texts(model::views(items@));
    let mut parts: Vec<String> = Vec::new();
    let mut i: usize = 0;
    while i < items.len()
        invariant
            i <= items.len(),
            texts == usage_texts(model::views(items@)),
            model::views(parts@) =~= texts.take(i as int),
        decreases items.len() - i,
    {
        let ghost done = parts@;
        assert(model::views(done).len() == done.len());
        let part = encode_usage(&items[i]);
        parts.push(part);
        i = i + 1;
        assert(model::views(parts@) =~= model::views(done).push(part@));
        assert(texts[i - 1] == part@);
    }
    assert(texts.take(i as int) =~= texts);
    encode_array(&parts)
}

/// The JSON form of a page.
#[verifier::opaque]
pub open spec fn page_json(page: PageView) -> Seq<char> {
    let json = Seq::<char>::empty();
    let json = json + "{\"work\":"@ + work_json(page.work);
    let json = json + ",\"listingRevision\":"@ + quoted(page.listing_revision);
    let json = json + ",\"directoryId\":"@ + quoted(page.directory_id);
    let json = json + ",\"category\":"@ + category_json(page.category);
    let json = json + ",\"entries\":"@ + array(entry_texts(page.entries));
    let json = json + ",\"cursor\":"@ + optional_json(page.cursor);
    let json = json + ",\"nextCursor\":"@ + optional_json(page.next_cursor);
    let json = json + ",\"coverage\":"@ + coverage_json(page.coverage);
    let json = json + ",\"issues\":"@ + issues_json(page.issues);
    json + "}"@
}

/// The JSON form of a page.
pub fn encode_page(page: &ListingPage) -> (json: String)
    ensures
        json@ == page_json(page@),
{
    proof {
        reveal(page_json);
    }
    let mut json = String::new();
    json.append("{\"work\":");
    json.append(encode_work(&page.work).as_str());
    json.append(",\"listingRevision\":");
    json.append(quote(page.listing_revision.as_str()).as_str());
    json.append(",\"directoryId\":");
    json.append(quote(page.directory_id.as_str()).as_str());
    json.append(",\"category\":");
    json.append(encode_category(page.category));
    json.append(",\"entries\":");
    json.append(encode_entries(&page.entries).as_str());
    json.append(",\"cursor\":");
    json.append(encode_optional(&page.cursor).as_str());
    json.append(",\"nextCursor\":");
    json.append(encode_optional(&page.next_cursor).as_str());
    json.append(",\"coverage\":");
    json.append(encode_coverage(page.coverage));
    json.append(",\"issues\":");
    json.append(encode_issues(&page.issues).as_str());
    json.append("}");
    json
}

/// The JSON form of a notification.
#[verifier::opaque]
pub open spec fn event_json(event: EventView) -> Seq<char> {
    let json = Seq::<char>::empty();
    let json = json + "{\"protocolVersion\":"@ + text::decimal(event.protocol_version as nat);
    let json = json + ",\"sessionId\":"@ + quoted(event.session_id);
    let json = json + ",\"generation\":"@ + text::decimal(event.generation as nat);
    let json = json + ",\"taskId\":"@ + quoted(event.task_id);
    let json = json + ",\"sequence\":"@ + text::decimal(event.sequence as nat);
    let json = json + ",\"kind\":"@ + event_kind_json(event.kind);
    let json = json + ",\"observedAt\":"@ + quoted(event.observed_at);
    json + "}"@
}

/// The JSON form of a notification.
pub fn encode_event(event: &WorkEvent) -> (json: String)
    ensures
        json@ == event_json(event@),
{
    proof {
        reveal(event_json);
    }
    let mut json = String::new();
    json.append("{\"protocolVersion\":");
    json.append(numeral(event.protocol_version as u128).as_str());
    json.append(",\"sessionId\":");
    json.append(quote(event.session_id.as_str()).as_str());
    json.append(",\"generation\":");
    json.append(numeral(event.generation as u128).as_str());
    json.append(",\"taskId\":");
    json.append(quote(event.task_id.as_str()).as_str());
    json.append(",\"sequence\":");
    json.append(numeral(event.sequence as u128).as_str());
    json.append(",\"kind\":");
    json.append(encode_event_kind(event.kind));
    json.append(",\"observedAt\":");
    json.append(quote(event.observed_at.as_str()).as_str());
    json.append("}");
    json
}

/// The number of bytes in a JSON text.
pub open spec fn json_len(json: Seq<char>) -> nat {
    text::utf8(json).len()
}

/// The largest `usize` where a number does not fit.
pub open spec fn clip(n: nat) -> nat {
    if n <= usize::MAX {
        n
    } else {
        usize::MAX as nat
    }
}

/// An upper estimate of the memory that a value takes, from the size of its JSON form and of its
/// fixed part. It deliberately counts serialization, container storage and spare capacity.
pub open spec fn estimate(json: nat, fixed: nat) -> nat {
    clip(2 * json + 2 * fixed + 256)
}

fn estimate_of(json: usize, fixed: usize) -> (bytes: usize)
    ensures
        bytes == estimate(json as nat, fixed as nat),
{
    json.saturating_add(json).saturating_add(fixed).saturating_add(fixed).saturating_add(256)
}

/// The estimate for an entry.
pub open spec fn entry_estimate(entry: EntryView) -> nat {
    estimate(json_len(entry_json(entry)), vstd::layout::size_of::<Entry>())
}

/// The estimate for an entry.
pub fn estimate_entry(entry: &Entry) -> (bytes: usize)
    ensures
        bytes == entry_estimate(entry@),
{
    estimate_of(byte_len(encode_entry(entry).as_str()), std::mem::size_of::<Entry>())
}

/// The estimate for a work record.
pub open spec fn work_estimate(work: WorkView) -> nat {
    estimate(json_len(work_json(work)), vstd::layout::size_of::<WorkRecord>())
}

/// The estimate for a work record.
pub fn estimate_work(work: &WorkRecord) -> (bytes: usize)
    ensures
        bytes == work_estimate(work@),
{
    estimate_of(byte_len(encode_work(work).as_str()), std::mem::size_of::<WorkRecord>())
}

/// The estimate for an issue.
pub open spec fn issue_estimate(issue: IssueView) -> nat {
    estimate(json_len(issue_json(issue)), vstd::layout::size_of::<FsIssue>())
}

/// The estimate for an issue.
pub fn estimate_issue(issue: &FsIssue) -> (bytes: usize)
    ensures
        bytes == issue_estimate(issue@),
{
    estimate_of(byte_len(encode_issue(issue).as_str()), std::mem::size_of::<FsIssue>())
}

/// The estimate for a list of issues.
pub open spec fn issues_estimate(issues: IssuesView) -> nat {
    estimate(json_len(issues_json(issues)), vstd::layout::size_of::<Issues>())
}

/// The estimate for a list of issues.
pub fn estimate_issues(issues: &Issues) -> (bytes: usize)
    ensures
        bytes == issues_estimate(issues@),
{
    estimate_of(byte_len(encode_issues(issues).as_str()), std::mem::size_of::<Issues>())
}

} // verus!
