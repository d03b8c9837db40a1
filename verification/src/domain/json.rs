//! What the JSON forms of wire values say to whoever reads them: every member is found under its
//! name, and holds what it is named after.
use vstd::prelude::*;

use crate::domain::model::{
    Category, Coverage, EntryView, EventKind, EventView, FieldView, FollowPolicy, IssueScope,
    IssueView, IssuesView, Kind, MeasureView, Operation, PageView, Phase, Reason, ScanState,
    SpecialType, UsageView, WaitReason, WorkView,
};
use crate::domain::wire;
use crate::domain::wire::quoted;
use crate::text;
use crate::text_map;

verus! {

/// A JSON value.
pub enum Json {
    Null,
    Flag(bool),
    Number(int),
    Text(Seq<char>),
    List(Seq<Json>),
    Object(Seq<(Seq<char>, Json)>),
}

/// How a member of an object begins: what stands before it, its name, and a colon.
pub open spec fn key_text(later: bool, name: Seq<char>) -> Seq<char> {
    (if later {
        ","@
    } else {
        "{"@
    }) + quoted(name) + ":"@
}

/// How a JSON value is written, without any white space.
pub open spec fn written(json: Json) -> Seq<char>
    decreases json, 0nat,
{
    match json {
        Json::Null => "null"@,
        Json::Flag(value) => if value {
            "true"@
        } else {
            "false"@
        },
        Json::Number(value) => if value < 0 {
            "-"@ + text::decimal((-value) as nat)
        } else {
            text::decimal(value as nat)
        },
        Json::Text(text) => quoted(text),
        Json::List(items) => "["@ + written_items(items, items.len()) + "]"@,
        Json::Object(members) => if members.len() == 0 {
            "{}"@
        } else {
            written_members(members, members.len()) + "}"@
        },
    }
}

/// How the first `n` items of a list are written.
pub open spec fn written_items(items: Seq<Json>, n: nat) -> Seq<char>
    decreases items, n,
{
    if n == 0 || n > items.len() {
        Seq::empty()
    } else if n == 1 {
        written(items[0])
    } else {
        written_items(items, (n - 1) as nat) + ","@ + written(items[n - 1])
    }
}

/// How the first `n` members of an object are written, with the brace before them.
pub open spec fn written_members(members: Seq<(Seq<char>, Json)>, n: nat) -> Seq<char>
    decreases members, n,
{
    if n == 0 || n > members.len() {
        Seq::empty()
    } else {
        written_members(members, (n - 1) as nat) + key_text(n > 1, members[n - 1].0) + written(
            members[n - 1].1,
        )
    }
}

/// Whether a member has this name and this value, and no other has the name.
pub open spec fn stands_at(
    members: Seq<(Seq<char>, Json)>,
    i: int,
    name: Seq<char>,
    value: Json,
) -> bool {
    &&& 0 <= i < members.len()
    &&& members[i].0 == name
    &&& members[i].1 == value
    &&& forall|k: int| 0 <= k < members.len() && (#[trigger] members[k]).0 == name ==> k == i
}

/// Whether an object has exactly one member of this name, and that holds this value.
pub open spec fn says(json: Json, name: Seq<char>, value: Json) -> bool {
    json is Object && exists|i: int| stands_at(json->Object_0, i, name, value)
}

/// Whether an object has no member of this name.
pub open spec fn is_silent(json: Json, name: Seq<char>) -> bool {
    json is Object && forall|k: int|
        0 <= k < json->Object_0.len() ==> (#[trigger] json->Object_0[k]).0 != name
}

/// Whether an object has exactly so many members.
pub open spec fn has_members(json: Json, n: nat) -> bool {
    json matches Json::Object(members) && members.len() == n
}

/// The character that an escape stands for: a letter behind a backslash, or four hexadecimal digits
/// behind a backslash and a `u`.
pub open spec fn unescaped(text: Seq<char>) -> (char, nat) {
    if text.len() >= 2 && text[0] == '\\' {
        if text[1] == 'b' {
            ('\u{8}', 2)
        } else if text[1] == 't' {
            ('\u{9}', 2)
        } else if text[1] == 'n' {
            ('\u{a}', 2)
        } else if text[1] == 'f' {
            ('\u{c}', 2)
        } else if text[1] == 'r' {
            ('\u{d}', 2)
        } else if text[1] == 'u' && text.len() >= 6 {
            (
                ((hex_value(text[2]) * 4096 + hex_value(text[3]) * 256 + hex_value(text[4]) * 16
                    + hex_value(text[5])) as u8) as char,
                6,
            )
        } else {
            (text[1], 2)
        }
    } else {
        (text[0], 1)
    }
}

/// What a hexadecimal digit stands for.
pub open spec fn hex_value(c: char) -> int {
    if '0' <= c <= '9' {
        c as int - '0' as int
    } else {
        c as int - 'a' as int + 10
    }
}

/// What the inside of a JSON string stands for.
pub open spec fn unquoted(text: Seq<char>) -> Seq<char>
    decreases text.len(),
{
    if text.len() == 0 {
        text
    } else {
        let (c, n) = unescaped(text);
        if n == 0 || n > text.len() {
            Seq::empty()
        } else {
            seq![c] + unquoted(text.skip(n as int))
        }
    }
}

proof fn lemma_escape(c: char, rest: Seq<char>)
    ensures
        wire::escape(c).len() > 0,
        unescaped(wire::escape(c) + rest) == (c, wire::escape(c).len()),
{
    let n = c as int;
    let all = wire::escape(c) + rest;
    if n < 32 {
        assert(n == (n / 16) * 16 + n % 16);
        assert(n / 16 == 0 || n / 16 == 1);
        assert(hex_value(wire::hex(n / 16)) == n / 16);
        assert(hex_value(wire::hex(n % 16)) == n % 16);
        assert(hex_value('0') == 0);
    }
}

proof fn lemma_unquoted(text: Seq<char>, rest: Seq<char>)
    ensures
        unquoted(wire::escaped(text) + rest) == text + unquoted(rest),
    decreases text.len(),
{
    if text.len() == 0 {
        assert(wire::escaped(text) + rest =~= rest);
        assert(text + unquoted(rest) =~= unquoted(rest));
    } else {
        let head = text.drop_last();
        let last = wire::escape(text.last());
        let tail = last + rest;
        lemma_unquoted(head, tail);
        assert(wire::escaped(text) + rest =~= wire::escaped(head) + tail);
        lemma_escape(text.last(), rest);
        assert(tail.skip(last.len() as int) =~= rest);
        assert(unquoted(tail) == seq![text.last()] + unquoted(rest));
        assert(head + (seq![text.last()] + unquoted(rest)) =~= text + unquoted(rest));
    }
}

/// A text that was written as a JSON string reads back as it was: between its quotation marks stands
/// the text with every character told by itself or by its escape.
pub proof fn texts_read_back(text: Seq<char>)
    ensures
        quoted(text).len() >= 2,
        quoted(text)[0] == '"',
        quoted(text).last() == '"',
        unquoted(quoted(text).subrange(1, quoted(text).len() - 1)) == text,
{
    let inside = quoted(text).subrange(1, quoted(text).len() - 1);
    assert(inside =~= wire::escaped(text));
    lemma_unquoted(text, Seq::empty());
    assert(wire::escaped(text) + Seq::<char>::empty() =~= wire::escaped(text));
    assert(text + unquoted(Seq::<char>::empty()) =~= text);
}

/// A character that stands for itself in a JSON string.
spec fn is_plain(c: char) -> bool {
    c as int >= 32 && c != '"' && c != '\\'
}

proof fn lemma_plain(text: Seq<char>)
    requires
        forall|i: int| 0 <= i < text.len() ==> is_plain(#[trigger] text[i]),
    ensures
        quoted(text) == seq!['"'] + text + seq!['"'],
    decreases text.len(),
{
    lemma_escaped_plain(text);
}

proof fn lemma_escaped_plain(text: Seq<char>)
    requires
        forall|i: int| 0 <= i < text.len() ==> is_plain(#[trigger] text[i]),
    ensures
        wire::escaped(text) == text,
    decreases text.len(),
{
    if text.len() > 0 {
        let head = text.drop_last();
        assert forall|i: int| 0 <= i < head.len() implies is_plain(#[trigger] head[i]) by {
            assert(head[i] == text[i]);
        }
        lemma_escaped_plain(head);
        assert(is_plain(text[text.len() - 1]));
        assert(head + seq![text.last()] =~= text);
    } else {
        assert(wire::escaped(text) =~= text);
    }
}

proof fn lemma_member(members: Seq<(Seq<char>, Json)>, n: nat)
    requires
        0 < n <= members.len(),
    ensures
        written_members(members, n) == written_members(members, (n - 1) as nat) + key_text(
            n > 1,
            members[n - 1].0,
        ) + written(members[n - 1].1),
{
}

/// The word for a `Reason`.
pub open spec fn reason_word(value: Reason) -> Seq<char> {
    match value {
        Reason::Scanning => "scanning"@,
        Reason::ReadError => "readError"@,
        Reason::Cancelled => "cancelled"@,
        Reason::Unsupported => "unsupported"@,
        Reason::ChangedDuringScan => "changedDuringScan"@,
        Reason::Overflow => "overflow"@,
        Reason::ResourceLimit => "resourceLimit"@,
        Reason::ExcludedByPolicy => "excludedByPolicy"@,
    }
}

proof fn lemma_reason_word(value: Reason)
    ensures
        wire::reason_json(value) == quoted(reason_word(value)),
{
    match value {
        Reason::Scanning => {
            reveal_strlit("\"scanning\"");
            reveal_strlit("scanning");
            lemma_plain("scanning"@);
            assert("\"scanning\""@ =~= quoted("scanning"@));
        },
        Reason::ReadError => {
            reveal_strlit("\"readError\"");
            reveal_strlit("readError");
            lemma_plain("readError"@);
            assert("\"readError\""@ =~= quoted("readError"@));
        },
        Reason::Cancelled => {
            reveal_strlit("\"cancelled\"");
            reveal_strlit("cancelled");
            lemma_plain("cancelled"@);
            assert("\"cancelled\""@ =~= quoted("cancelled"@));
        },
        Reason::Unsupported => {
            reveal_strlit("\"unsupported\"");
            reveal_strlit("unsupported");
            lemma_plain("unsupported"@);
            assert("\"unsupported\""@ =~= quoted("unsupported"@));
        },
        Reason::ChangedDuringScan => {
            reveal_strlit("\"changedDuringScan\"");
            reveal_strlit("changedDuringScan");
            lemma_plain("changedDuringScan"@);
            assert("\"changedDuringScan\""@ =~= quoted("changedDuringScan"@));
        },
        Reason::Overflow => {
            reveal_strlit("\"overflow\"");
            reveal_strlit("overflow");
            lemma_plain("overflow"@);
            assert("\"overflow\""@ =~= quoted("overflow"@));
        },
        Reason::ResourceLimit => {
            reveal_strlit("\"resourceLimit\"");
            reveal_strlit("resourceLimit");
            lemma_plain("resourceLimit"@);
            assert("\"resourceLimit\""@ =~= quoted("resourceLimit"@));
        },
        Reason::ExcludedByPolicy => {
            reveal_strlit("\"excludedByPolicy\"");
            reveal_strlit("excludedByPolicy");
            lemma_plain("excludedByPolicy"@);
            assert("\"excludedByPolicy\""@ =~= quoted("excludedByPolicy"@));
        },
    }
}

/// The word for a `Kind`.
pub open spec fn kind_word(value: Kind) -> Seq<char> {
    match value {
        Kind::Directory => "directory"@,
        Kind::RegularFile => "regularFile"@,
        Kind::Symlink => "symlink"@,
        Kind::Other => "other"@,
        Kind::Unknown => "unknown"@,
    }
}

proof fn lemma_kind_word(value: Kind)
    ensures
        wire::kind_json(value) == quoted(kind_word(value)),
{
    match value {
        Kind::Directory => {
            reveal_strlit("\"directory\"");
            reveal_strlit("directory");
            lemma_plain("directory"@);
            assert("\"directory\""@ =~= quoted("directory"@));
        },
        Kind::RegularFile => {
            reveal_strlit("\"regularFile\"");
            reveal_strlit("regularFile");
            lemma_plain("regularFile"@);
            assert("\"regularFile\""@ =~= quoted("regularFile"@));
        },
        Kind::Symlink => {
            reveal_strlit("\"symlink\"");
            reveal_strlit("symlink");
            lemma_plain("symlink"@);
            assert("\"symlink\""@ =~= quoted("symlink"@));
        },
        Kind::Other => {
            reveal_strlit("\"other\"");
            reveal_strlit("other");
            lemma_plain("other"@);
            assert("\"other\""@ =~= quoted("other"@));
        },
        Kind::Unknown => {
            reveal_strlit("\"unknown\"");
            reveal_strlit("unknown");
            lemma_plain("unknown"@);
            assert("\"unknown\""@ =~= quoted("unknown"@));
        },
    }
}

/// The word for a `SpecialType`.
pub open spec fn special_type_word(value: SpecialType) -> Seq<char> {
    match value {
        SpecialType::Ordinary => "none"@,
        SpecialType::MacAlias => "macAlias"@,
        SpecialType::MacPackage => "macPackage"@,
        SpecialType::LinuxDesktopEntry => "linuxDesktopEntry"@,
        SpecialType::Other => "other"@,
    }
}

proof fn lemma_special_type_word(value: SpecialType)
    ensures
        wire::special_type_json(value) == quoted(special_type_word(value)),
{
    match value {
        SpecialType::Ordinary => {
            reveal_strlit("\"none\"");
            reveal_strlit("none");
            lemma_plain("none"@);
            assert("\"none\""@ =~= quoted("none"@));
        },
        SpecialType::MacAlias => {
            reveal_strlit("\"macAlias\"");
            reveal_strlit("macAlias");
            lemma_plain("macAlias"@);
            assert("\"macAlias\""@ =~= quoted("macAlias"@));
        },
        SpecialType::MacPackage => {
            reveal_strlit("\"macPackage\"");
            reveal_strlit("macPackage");
            lemma_plain("macPackage"@);
            assert("\"macPackage\""@ =~= quoted("macPackage"@));
        },
        SpecialType::LinuxDesktopEntry => {
            reveal_strlit("\"linuxDesktopEntry\"");
            reveal_strlit("linuxDesktopEntry");
            lemma_plain("linuxDesktopEntry"@);
            assert("\"linuxDesktopEntry\""@ =~= quoted("linuxDesktopEntry"@));
        },
        SpecialType::Other => {
            reveal_strlit("\"other\"");
            reveal_strlit("other");
            lemma_plain("other"@);
            assert("\"other\""@ =~= quoted("other"@));
        },
    }
}

/// The word for a `Phase`.
pub open spec fn phase_word(value: Phase) -> Seq<char> {
    match value {
        Phase::Queued => "queued"@,
        Phase::Running => "running"@,
        Phase::Completed => "completed"@,
        Phase::Failed => "failed"@,
        Phase::Cancelled => "cancelled"@,
    }
}

proof fn lemma_phase_word(value: Phase)
    ensures
        wire::phase_json(value) == quoted(phase_word(value)),
{
    match value {
        Phase::Queued => {
            reveal_strlit("\"queued\"");
            reveal_strlit("queued");
            lemma_plain("queued"@);
            assert("\"queued\""@ =~= quoted("queued"@));
        },
        Phase::Running => {
            reveal_strlit("\"running\"");
            reveal_strlit("running");
            lemma_plain("running"@);
            assert("\"running\""@ =~= quoted("running"@));
        },
        Phase::Completed => {
            reveal_strlit("\"completed\"");
            reveal_strlit("completed");
            lemma_plain("completed"@);
            assert("\"completed\""@ =~= quoted("completed"@));
        },
        Phase::Failed => {
            reveal_strlit("\"failed\"");
            reveal_strlit("failed");
            lemma_plain("failed"@);
            assert("\"failed\""@ =~= quoted("failed"@));
        },
        Phase::Cancelled => {
            reveal_strlit("\"cancelled\"");
            reveal_strlit("cancelled");
            lemma_plain("cancelled"@);
            assert("\"cancelled\""@ =~= quoted("cancelled"@));
        },
    }
}

/// The word for a `Operation`.
pub open spec fn operation_word(value: Operation) -> Seq<char> {
    match value {
        Operation::ListDirectories => "listDirectories"@,
        Operation::ListFiles => "listFiles"@,
        Operation::ScanUsage => "scanUsage"@,
    }
}

proof fn lemma_operation_word(value: Operation)
    ensures
        wire::operation_json(value) == quoted(operation_word(value)),
{
    match value {
        Operation::ListDirectories => {
            reveal_strlit("\"listDirectories\"");
            reveal_strlit("listDirectories");
            lemma_plain("listDirectories"@);
            assert("\"listDirectories\""@ =~= quoted("listDirectories"@));
        },
        Operation::ListFiles => {
            reveal_strlit("\"listFiles\"");
            reveal_strlit("listFiles");
            lemma_plain("listFiles"@);
            assert("\"listFiles\""@ =~= quoted("listFiles"@));
        },
        Operation::ScanUsage => {
            reveal_strlit("\"scanUsage\"");
            reveal_strlit("scanUsage");
            lemma_plain("scanUsage"@);
            assert("\"scanUsage\""@ =~= quoted("scanUsage"@));
        },
    }
}

/// The word for a `WaitReason`.
pub open spec fn wait_reason_word(value: WaitReason) -> Seq<char> {
    match value {
        WaitReason::Draining => "draining"@,
        WaitReason::Slot => "slot"@,
        WaitReason::PageDemand => "pageDemand"@,
    }
}

proof fn lemma_wait_reason_word(value: WaitReason)
    ensures
        wire::wait_reason_json(value) == quoted(wait_reason_word(value)),
{
    match value {
        WaitReason::Draining => {
            reveal_strlit("\"draining\"");
            reveal_strlit("draining");
            lemma_plain("draining"@);
            assert("\"draining\""@ =~= quoted("draining"@));
        },
        WaitReason::Slot => {
            reveal_strlit("\"slot\"");
            reveal_strlit("slot");
            lemma_plain("slot"@);
            assert("\"slot\""@ =~= quoted("slot"@));
        },
        WaitReason::PageDemand => {
            reveal_strlit("\"pageDemand\"");
            reveal_strlit("pageDemand");
            lemma_plain("pageDemand"@);
            assert("\"pageDemand\""@ =~= quoted("pageDemand"@));
        },
    }
}

/// The word for a `IssueScope`.
pub open spec fn issue_scope_word(value: IssueScope) -> Seq<char> {
    match value {
        IssueScope::Root => "root"@,
        IssueScope::Entry => "entry"@,
        IssueScope::Subtree => "subtree"@,
    }
}

proof fn lemma_issue_scope_word(value: IssueScope)
    ensures
        wire::issue_scope_json(value) == quoted(issue_scope_word(value)),
{
    match value {
        IssueScope::Root => {
            reveal_strlit("\"root\"");
            reveal_strlit("root");
            lemma_plain("root"@);
            assert("\"root\""@ =~= quoted("root"@));
        },
        IssueScope::Entry => {
            reveal_strlit("\"entry\"");
            reveal_strlit("entry");
            lemma_plain("entry"@);
            assert("\"entry\""@ =~= quoted("entry"@));
        },
        IssueScope::Subtree => {
            reveal_strlit("\"subtree\"");
            reveal_strlit("subtree");
            lemma_plain("subtree"@);
            assert("\"subtree\""@ =~= quoted("subtree"@));
        },
    }
}

/// The word for a `ScanState`.
pub open spec fn scan_state_word(value: ScanState) -> Seq<char> {
    match value {
        ScanState::NotRequested => "notRequested"@,
        ScanState::Queued => "queued"@,
        ScanState::Running => "running"@,
        ScanState::Settled => "settled"@,
        ScanState::Failed => "failed"@,
        ScanState::Cancelled => "cancelled"@,
    }
}

proof fn lemma_scan_state_word(value: ScanState)
    ensures
        wire::scan_state_json(value) == quoted(scan_state_word(value)),
{
    match value {
        ScanState::NotRequested => {
            reveal_strlit("\"notRequested\"");
            reveal_strlit("notRequested");
            lemma_plain("notRequested"@);
            assert("\"notRequested\""@ =~= quoted("notRequested"@));
        },
        ScanState::Queued => {
            reveal_strlit("\"queued\"");
            reveal_strlit("queued");
            lemma_plain("queued"@);
            assert("\"queued\""@ =~= quoted("queued"@));
        },
        ScanState::Running => {
            reveal_strlit("\"running\"");
            reveal_strlit("running");
            lemma_plain("running"@);
            assert("\"running\""@ =~= quoted("running"@));
        },
        ScanState::Settled => {
            reveal_strlit("\"settled\"");
            reveal_strlit("settled");
            lemma_plain("settled"@);
            assert("\"settled\""@ =~= quoted("settled"@));
        },
        ScanState::Failed => {
            reveal_strlit("\"failed\"");
            reveal_strlit("failed");
            lemma_plain("failed"@);
            assert("\"failed\""@ =~= quoted("failed"@));
        },
        ScanState::Cancelled => {
            reveal_strlit("\"cancelled\"");
            reveal_strlit("cancelled");
            lemma_plain("cancelled"@);
            assert("\"cancelled\""@ =~= quoted("cancelled"@));
        },
    }
}

/// The word for a `FollowPolicy`.
pub open spec fn follow_policy_word(value: FollowPolicy) -> Seq<char> {
    match value {
        FollowPolicy::Never => "never"@,
    }
}

proof fn lemma_follow_policy_word(value: FollowPolicy)
    ensures
        wire::follow_policy_json(value) == quoted(follow_policy_word(value)),
{
    match value {
        FollowPolicy::Never => {
            reveal_strlit("\"never\"");
            reveal_strlit("never");
            lemma_plain("never"@);
            assert("\"never\""@ =~= quoted("never"@));
        },
    }
}

/// The word for a `Category`.
pub open spec fn category_word(value: Category) -> Seq<char> {
    match value {
        Category::Directories => "directories"@,
        Category::Files => "files"@,
    }
}

proof fn lemma_category_word(value: Category)
    ensures
        wire::category_json(value) == quoted(category_word(value)),
{
    match value {
        Category::Directories => {
            reveal_strlit("\"directories\"");
            reveal_strlit("directories");
            lemma_plain("directories"@);
            assert("\"directories\""@ =~= quoted("directories"@));
        },
        Category::Files => {
            reveal_strlit("\"files\"");
            reveal_strlit("files");
            lemma_plain("files"@);
            assert("\"files\""@ =~= quoted("files"@));
        },
    }
}

/// The word for a `Coverage`.
pub open spec fn coverage_word(value: Coverage) -> Seq<char> {
    match value {
        Coverage::Complete => "complete"@,
        Coverage::Partial => "partial"@,
    }
}

proof fn lemma_coverage_word(value: Coverage)
    ensures
        wire::coverage_json(value) == quoted(coverage_word(value)),
{
    match value {
        Coverage::Complete => {
            reveal_strlit("\"complete\"");
            reveal_strlit("complete");
            lemma_plain("complete"@);
            assert("\"complete\""@ =~= quoted("complete"@));
        },
        Coverage::Partial => {
            reveal_strlit("\"partial\"");
            reveal_strlit("partial");
            lemma_plain("partial"@);
            assert("\"partial\""@ =~= quoted("partial"@));
        },
    }
}

/// The word for a `EventKind`.
pub open spec fn event_kind_word(value: EventKind) -> Seq<char> {
    match value {
        EventKind::Progress => "progress"@,
        EventKind::UsageChanged => "usageChanged"@,
        EventKind::ListingAvailable => "listingAvailable"@,
        EventKind::Terminal => "terminal"@,
    }
}

proof fn lemma_event_kind_word(value: EventKind)
    ensures
        wire::event_kind_json(value) == quoted(event_kind_word(value)),
{
    match value {
        EventKind::Progress => {
            reveal_strlit("\"progress\"");
            reveal_strlit("progress");
            lemma_plain("progress"@);
            assert("\"progress\""@ =~= quoted("progress"@));
        },
        EventKind::UsageChanged => {
            reveal_strlit("\"usageChanged\"");
            reveal_strlit("usageChanged");
            lemma_plain("usageChanged"@);
            assert("\"usageChanged\""@ =~= quoted("usageChanged"@));
        },
        EventKind::ListingAvailable => {
            reveal_strlit("\"listingAvailable\"");
            reveal_strlit("listingAvailable");
            lemma_plain("listingAvailable"@);
            assert("\"listingAvailable\""@ =~= quoted("listingAvailable"@));
        },
        EventKind::Terminal => {
            reveal_strlit("\"terminal\"");
            reveal_strlit("terminal");
            lemma_plain("terminal"@);
            assert("\"terminal\""@ =~= quoted("terminal"@));
        },
    }
}

proof fn lemma_key_first_code()
    ensures
        "{\"code\":"@ == key_text(false, "code"@),
{
    reveal_strlit("{\"code\":");
    reveal_strlit("code");
    reveal_strlit("{");
    reveal_strlit(":");
    lemma_plain("code"@);
    assert("{\"code\":"@ =~= key_text(false, "code"@));
}

proof fn lemma_key_next_operation()
    ensures
        ",\"operation\":"@ == key_text(true, "operation"@),
{
    reveal_strlit(",\"operation\":");
    reveal_strlit("operation");
    reveal_strlit(",");
    reveal_strlit(":");
    lemma_plain("operation"@);
    assert(",\"operation\":"@ =~= key_text(true, "operation"@));
}

proof fn lemma_key_next_scope()
    ensures
        ",\"scope\":"@ == key_text(true, "scope"@),
{
    reveal_strlit(",\"scope\":");
    reveal_strlit("scope");
    reveal_strlit(",");
    reveal_strlit(":");
    lemma_plain("scope"@);
    assert(",\"scope\":"@ =~= key_text(true, "scope"@));
}

proof fn lemma_key_next_entry_id()
    ensures
        ",\"entryId\":"@ == key_text(true, "entryId"@),
{
    reveal_strlit(",\"entryId\":");
    reveal_strlit("entryId");
    reveal_strlit(",");
    reveal_strlit(":");
    lemma_plain("entryId"@);
    assert(",\"entryId\":"@ =~= key_text(true, "entryId"@));
}

proof fn lemma_key_next_native_code()
    ensures
        ",\"nativeCode\":"@ == key_text(true, "nativeCode"@),
{
    reveal_strlit(",\"nativeCode\":");
    reveal_strlit("nativeCode");
    reveal_strlit(",");
    reveal_strlit(":");
    lemma_plain("nativeCode"@);
    assert(",\"nativeCode\":"@ =~= key_text(true, "nativeCode"@));
}

proof fn lemma_key_first_state()
    ensures
        "{\"state\":"@ == key_text(false, "state"@),
{
    reveal_strlit("{\"state\":");
    reveal_strlit("state");
    reveal_strlit("{");
    reveal_strlit(":");
    lemma_plain("state"@);
    assert("{\"state\":"@ =~= key_text(false, "state"@));
}

proof fn lemma_key_next_value()
    ensures
        ",\"value\":"@ == key_text(true, "value"@),
{
    reveal_strlit(",\"value\":");
    reveal_strlit("value");
    reveal_strlit(",");
    reveal_strlit(":");
    lemma_plain("value"@);
    assert(",\"value\":"@ =~= key_text(true, "value"@));
}

proof fn lemma_key_next_issue()
    ensures
        ",\"issue\":"@ == key_text(true, "issue"@),
{
    reveal_strlit(",\"issue\":");
    reveal_strlit("issue");
    reveal_strlit(",");
    reveal_strlit(":");
    lemma_plain("issue"@);
    assert(",\"issue\":"@ =~= key_text(true, "issue"@));
}

proof fn lemma_key_next_bytes()
    ensures
        ",\"bytes\":"@ == key_text(true, "bytes"@),
{
    reveal_strlit(",\"bytes\":");
    reveal_strlit("bytes");
    reveal_strlit(",");
    reveal_strlit(":");
    lemma_plain("bytes"@);
    assert(",\"bytes\":"@ =~= key_text(true, "bytes"@));
}

proof fn lemma_key_next_observed_bytes()
    ensures
        ",\"observedBytes\":"@ == key_text(true, "observedBytes"@),
{
    reveal_strlit(",\"observedBytes\":");
    reveal_strlit("observedBytes");
    reveal_strlit(",");
    reveal_strlit(":");
    lemma_plain("observedBytes"@);
    assert(",\"observedBytes\":"@ =~= key_text(true, "observedBytes"@));
}

proof fn lemma_key_next_reason()
    ensures
        ",\"reason\":"@ == key_text(true, "reason"@),
{
    reveal_strlit(",\"reason\":");
    reveal_strlit("reason");
    reveal_strlit(",");
    reveal_strlit(":");
    lemma_plain("reason"@);
    assert(",\"reason\":"@ =~= key_text(true, "reason"@));
}

proof fn lemma_key_next_reasons()
    ensures
        ",\"reasons\":"@ == key_text(true, "reasons"@),
{
    reveal_strlit(",\"reasons\":");
    reveal_strlit("reasons");
    reveal_strlit(",");
    reveal_strlit(":");
    lemma_plain("reasons"@);
    assert(",\"reasons\":"@ =~= key_text(true, "reasons"@));
}

proof fn lemma_key_first_counts()
    ensures
        "{\"counts\":"@ == key_text(false, "counts"@),
{
    reveal_strlit("{\"counts\":");
    reveal_strlit("counts");
    reveal_strlit("{");
    reveal_strlit(":");
    lemma_plain("counts"@);
    assert("{\"counts\":"@ =~= key_text(false, "counts"@));
}

proof fn lemma_key_next_samples()
    ensures
        ",\"samples\":"@ == key_text(true, "samples"@),
{
    reveal_strlit(",\"samples\":");
    reveal_strlit("samples");
    reveal_strlit(",");
    reveal_strlit(":");
    lemma_plain("samples"@);
    assert(",\"samples\":"@ =~= key_text(true, "samples"@));
}

proof fn lemma_key_first_entry_id()
    ensures
        "{\"entryId\":"@ == key_text(false, "entryId"@),
{
    reveal_strlit("{\"entryId\":");
    reveal_strlit("entryId");
    reveal_strlit("{");
    reveal_strlit(":");
    lemma_plain("entryId"@);
    assert("{\"entryId\":"@ =~= key_text(false, "entryId"@));
}

proof fn lemma_key_next_parent_id()
    ensures
        ",\"parentId\":"@ == key_text(true, "parentId"@),
{
    reveal_strlit(",\"parentId\":");
    reveal_strlit("parentId");
    reveal_strlit(",");
    reveal_strlit(":");
    lemma_plain("parentId"@);
    assert(",\"parentId\":"@ =~= key_text(true, "parentId"@));
}

proof fn lemma_key_next_display_name()
    ensures
        ",\"displayName\":"@ == key_text(true, "displayName"@),
{
    reveal_strlit(",\"displayName\":");
    reveal_strlit("displayName");
    reveal_strlit(",");
    reveal_strlit(":");
    lemma_plain("displayName"@);
    assert(",\"displayName\":"@ =~= key_text(true, "displayName"@));
}

proof fn lemma_key_next_kind()
    ensures
        ",\"kind\":"@ == key_text(true, "kind"@),
{
    reveal_strlit(",\"kind\":");
    reveal_strlit("kind");
    reveal_strlit(",");
    reveal_strlit(":");
    lemma_plain("kind"@);
    assert(",\"kind\":"@ =~= key_text(true, "kind"@));
}

proof fn lemma_key_next_hidden()
    ensures
        ",\"hidden\":"@ == key_text(true, "hidden"@),
{
    reveal_strlit(",\"hidden\":");
    reveal_strlit("hidden");
    reveal_strlit(",");
    reveal_strlit(":");
    lemma_plain("hidden"@);
    assert(",\"hidden\":"@ =~= key_text(true, "hidden"@));
}

proof fn lemma_key_next_special_type()
    ensures
        ",\"specialType\":"@ == key_text(true, "specialType"@),
{
    reveal_strlit(",\"specialType\":");
    reveal_strlit("specialType");
    reveal_strlit(",");
    reveal_strlit(":");
    lemma_plain("specialType"@);
    assert(",\"specialType\":"@ =~= key_text(true, "specialType"@));
}

proof fn lemma_key_next_modified_at()
    ensures
        ",\"modifiedAt\":"@ == key_text(true, "modifiedAt"@),
{
    reveal_strlit(",\"modifiedAt\":");
    reveal_strlit("modifiedAt");
    reveal_strlit(",");
    reveal_strlit(":");
    lemma_plain("modifiedAt"@);
    assert(",\"modifiedAt\":"@ =~= key_text(true, "modifiedAt"@));
}

proof fn lemma_key_next_own_logical_bytes()
    ensures
        ",\"ownLogicalBytes\":"@ == key_text(true, "ownLogicalBytes"@),
{
    reveal_strlit(",\"ownLogicalBytes\":");
    reveal_strlit("ownLogicalBytes");
    reveal_strlit(",");
    reveal_strlit(":");
    lemma_plain("ownLogicalBytes"@);
    assert(",\"ownLogicalBytes\":"@ =~= key_text(true, "ownLogicalBytes"@));
}

proof fn lemma_key_next_own_allocated_bytes()
    ensures
        ",\"ownAllocatedBytes\":"@ == key_text(true, "ownAllocatedBytes"@),
{
    reveal_strlit(",\"ownAllocatedBytes\":");
    reveal_strlit("ownAllocatedBytes");
    reveal_strlit(",");
    reveal_strlit(":");
    lemma_plain("ownAllocatedBytes"@);
    assert(",\"ownAllocatedBytes\":"@ =~= key_text(true, "ownAllocatedBytes"@));
}

proof fn lemma_key_next_observed_at()
    ensures
        ",\"observedAt\":"@ == key_text(true, "observedAt"@),
{
    reveal_strlit(",\"observedAt\":");
    reveal_strlit("observedAt");
    reveal_strlit(",");
    reveal_strlit(":");
    lemma_plain("observedAt"@);
    assert(",\"observedAt\":"@ =~= key_text(true, "observedAt"@));
}

proof fn lemma_key_next_follow_policy()
    ensures
        ",\"followPolicy\":"@ == key_text(true, "followPolicy"@),
{
    reveal_strlit(",\"followPolicy\":");
    reveal_strlit("followPolicy");
    reveal_strlit(",");
    reveal_strlit(":");
    lemma_plain("followPolicy"@);
    assert(",\"followPolicy\":"@ =~= key_text(true, "followPolicy"@));
}

proof fn lemma_key_first_directory_id()
    ensures
        "{\"directoryId\":"@ == key_text(false, "directoryId"@),
{
    reveal_strlit("{\"directoryId\":");
    reveal_strlit("directoryId");
    reveal_strlit("{");
    reveal_strlit(":");
    lemma_plain("directoryId"@);
    assert("{\"directoryId\":"@ =~= key_text(false, "directoryId"@));
}

proof fn lemma_key_next_usage_revision()
    ensures
        ",\"usageRevision\":"@ == key_text(true, "usageRevision"@),
{
    reveal_strlit(",\"usageRevision\":");
    reveal_strlit("usageRevision");
    reveal_strlit(",");
    reveal_strlit(":");
    lemma_plain("usageRevision"@);
    assert(",\"usageRevision\":"@ =~= key_text(true, "usageRevision"@));
}

proof fn lemma_key_next_scan_state()
    ensures
        ",\"scanState\":"@ == key_text(true, "scanState"@),
{
    reveal_strlit(",\"scanState\":");
    reveal_strlit("scanState");
    reveal_strlit(",");
    reveal_strlit(":");
    lemma_plain("scanState"@);
    assert(",\"scanState\":"@ =~= key_text(true, "scanState"@));
}

proof fn lemma_key_next_logical()
    ensures
        ",\"logical\":"@ == key_text(true, "logical"@),
{
    reveal_strlit(",\"logical\":");
    reveal_strlit("logical");
    reveal_strlit(",");
    reveal_strlit(":");
    lemma_plain("logical"@);
    assert(",\"logical\":"@ =~= key_text(true, "logical"@));
}

proof fn lemma_key_next_allocated()
    ensures
        ",\"allocated\":"@ == key_text(true, "allocated"@),
{
    reveal_strlit(",\"allocated\":");
    reveal_strlit("allocated");
    reveal_strlit(",");
    reveal_strlit(":");
    lemma_plain("allocated"@);
    assert(",\"allocated\":"@ =~= key_text(true, "allocated"@));
}

proof fn lemma_key_first_protocol_version()
    ensures
        "{\"protocolVersion\":"@ == key_text(false, "protocolVersion"@),
{
    reveal_strlit("{\"protocolVersion\":");
    reveal_strlit("protocolVersion");
    reveal_strlit("{");
    reveal_strlit(":");
    lemma_plain("protocolVersion"@);
    assert("{\"protocolVersion\":"@ =~= key_text(false, "protocolVersion"@));
}

proof fn lemma_key_next_session_id()
    ensures
        ",\"sessionId\":"@ == key_text(true, "sessionId"@),
{
    reveal_strlit(",\"sessionId\":");
    reveal_strlit("sessionId");
    reveal_strlit(",");
    reveal_strlit(":");
    lemma_plain("sessionId"@);
    assert(",\"sessionId\":"@ =~= key_text(true, "sessionId"@));
}

proof fn lemma_key_next_generation()
    ensures
        ",\"generation\":"@ == key_text(true, "generation"@),
{
    reveal_strlit(",\"generation\":");
    reveal_strlit("generation");
    reveal_strlit(",");
    reveal_strlit(":");
    lemma_plain("generation"@);
    assert(",\"generation\":"@ =~= key_text(true, "generation"@));
}

proof fn lemma_key_next_task_id()
    ensures
        ",\"taskId\":"@ == key_text(true, "taskId"@),
{
    reveal_strlit(",\"taskId\":");
    reveal_strlit("taskId");
    reveal_strlit(",");
    reveal_strlit(":");
    lemma_plain("taskId"@);
    assert(",\"taskId\":"@ =~= key_text(true, "taskId"@));
}

proof fn lemma_key_next_sequence()
    ensures
        ",\"sequence\":"@ == key_text(true, "sequence"@),
{
    reveal_strlit(",\"sequence\":");
    reveal_strlit("sequence");
    reveal_strlit(",");
    reveal_strlit(":");
    lemma_plain("sequence"@);
    assert(",\"sequence\":"@ =~= key_text(true, "sequence"@));
}

proof fn lemma_key_first_session_id()
    ensures
        "{\"sessionId\":"@ == key_text(false, "sessionId"@),
{
    reveal_strlit("{\"sessionId\":");
    reveal_strlit("sessionId");
    reveal_strlit("{");
    reveal_strlit(":");
    lemma_plain("sessionId"@);
    assert("{\"sessionId\":"@ =~= key_text(false, "sessionId"@));
}

proof fn lemma_key_next_target_id()
    ensures
        ",\"targetId\":"@ == key_text(true, "targetId"@),
{
    reveal_strlit(",\"targetId\":");
    reveal_strlit("targetId");
    reveal_strlit(",");
    reveal_strlit(":");
    lemma_plain("targetId"@);
    assert(",\"targetId\":"@ =~= key_text(true, "targetId"@));
}

proof fn lemma_key_next_phase()
    ensures
        ",\"phase\":"@ == key_text(true, "phase"@),
{
    reveal_strlit(",\"phase\":");
    reveal_strlit("phase");
    reveal_strlit(",");
    reveal_strlit(":");
    lemma_plain("phase"@);
    assert(",\"phase\":"@ =~= key_text(true, "phase"@));
}

proof fn lemma_key_next_wait_reason()
    ensures
        ",\"waitReason\":"@ == key_text(true, "waitReason"@),
{
    reveal_strlit(",\"waitReason\":");
    reveal_strlit("waitReason");
    reveal_strlit(",");
    reveal_strlit(":");
    lemma_plain("waitReason"@);
    assert(",\"waitReason\":"@ =~= key_text(true, "waitReason"@));
}

proof fn lemma_key_next_processed_entries()
    ensures
        ",\"processedEntries\":"@ == key_text(true, "processedEntries"@),
{
    reveal_strlit(",\"processedEntries\":");
    reveal_strlit("processedEntries");
    reveal_strlit(",");
    reveal_strlit(":");
    lemma_plain("processedEntries"@);
    assert(",\"processedEntries\":"@ =~= key_text(true, "processedEntries"@));
}

proof fn lemma_key_next_processed_directories()
    ensures
        ",\"processedDirectories\":"@ == key_text(true, "processedDirectories"@),
{
    reveal_strlit(",\"processedDirectories\":");
    reveal_strlit("processedDirectories");
    reveal_strlit(",");
    reveal_strlit(":");
    lemma_plain("processedDirectories"@);
    assert(",\"processedDirectories\":"@ =~= key_text(true, "processedDirectories"@));
}

proof fn lemma_key_next_issues()
    ensures
        ",\"issues\":"@ == key_text(true, "issues"@),
{
    reveal_strlit(",\"issues\":");
    reveal_strlit("issues");
    reveal_strlit(",");
    reveal_strlit(":");
    lemma_plain("issues"@);
    assert(",\"issues\":"@ =~= key_text(true, "issues"@));
}

proof fn lemma_key_first_work()
    ensures
        "{\"work\":"@ == key_text(false, "work"@),
{
    reveal_strlit("{\"work\":");
    reveal_strlit("work");
    reveal_strlit("{");
    reveal_strlit(":");
    lemma_plain("work"@);
    assert("{\"work\":"@ =~= key_text(false, "work"@));
}

proof fn lemma_key_next_listing_revision()
    ensures
        ",\"listingRevision\":"@ == key_text(true, "listingRevision"@),
{
    reveal_strlit(",\"listingRevision\":");
    reveal_strlit("listingRevision");
    reveal_strlit(",");
    reveal_strlit(":");
    lemma_plain("listingRevision"@);
    assert(",\"listingRevision\":"@ =~= key_text(true, "listingRevision"@));
}

proof fn lemma_key_next_directory_id()
    ensures
        ",\"directoryId\":"@ == key_text(true, "directoryId"@),
{
    reveal_strlit(",\"directoryId\":");
    reveal_strlit("directoryId");
    reveal_strlit(",");
    reveal_strlit(":");
    lemma_plain("directoryId"@);
    assert(",\"directoryId\":"@ =~= key_text(true, "directoryId"@));
}

proof fn lemma_key_next_category()
    ensures
        ",\"category\":"@ == key_text(true, "category"@),
{
    reveal_strlit(",\"category\":");
    reveal_strlit("category");
    reveal_strlit(",");
    reveal_strlit(":");
    lemma_plain("category"@);
    assert(",\"category\":"@ =~= key_text(true, "category"@));
}

proof fn lemma_key_next_entries()
    ensures
        ",\"entries\":"@ == key_text(true, "entries"@),
{
    reveal_strlit(",\"entries\":");
    reveal_strlit("entries");
    reveal_strlit(",");
    reveal_strlit(":");
    lemma_plain("entries"@);
    assert(",\"entries\":"@ =~= key_text(true, "entries"@));
}

proof fn lemma_key_next_cursor()
    ensures
        ",\"cursor\":"@ == key_text(true, "cursor"@),
{
    reveal_strlit(",\"cursor\":");
    reveal_strlit("cursor");
    reveal_strlit(",");
    reveal_strlit(":");
    lemma_plain("cursor"@);
    assert(",\"cursor\":"@ =~= key_text(true, "cursor"@));
}

proof fn lemma_key_next_next_cursor()
    ensures
        ",\"nextCursor\":"@ == key_text(true, "nextCursor"@),
{
    reveal_strlit(",\"nextCursor\":");
    reveal_strlit("nextCursor");
    reveal_strlit(",");
    reveal_strlit(":");
    lemma_plain("nextCursor"@);
    assert(",\"nextCursor\":"@ =~= key_text(true, "nextCursor"@));
}

proof fn lemma_key_next_coverage()
    ensures
        ",\"coverage\":"@ == key_text(true, "coverage"@),
{
    reveal_strlit(",\"coverage\":");
    reveal_strlit("coverage");
    reveal_strlit(",");
    reveal_strlit(":");
    lemma_plain("coverage"@);
    assert(",\"coverage\":"@ =~= key_text(true, "coverage"@));
}

/// Whether a value is a number of bytes: a string of digits without a leading zero that denotes it.
pub open spec fn reads_bytes(json: Json, value: nat) -> bool {
    json matches Json::Text(text) && text::canonical(text) && text::number(text) == value
}

/// Whether a value is a text, or null in place of none.
pub open spec fn reads_optional(json: Json, value: Option<Seq<char>>) -> bool {
    match value {
        Some(text) => json == Json::Text(text),
        None => json is Null,
    }
}

spec fn bytes_value(value: nat) -> Json {
    Json::Text(text::decimal(value))
}

spec fn optional_value(value: Option<Seq<char>>) -> Json {
    match value {
        Some(text) => Json::Text(text),
        None => Json::Null,
    }
}

proof fn lemma_bytes_value(value: nat)
    ensures
        reads_bytes(bytes_value(value), value),
        written(bytes_value(value)) == wire::bytes_text(value),
{
    text::lemma_decimal(value);
}

proof fn lemma_optional_value(value: Option<Seq<char>>)
    ensures
        reads_optional(optional_value(value), value),
        written(optional_value(value)) == wire::optional_json(value),
{
}

proof fn lemma_list(items: Seq<Json>, texts: Seq<Seq<char>>, n: nat)
    requires
        items.len() == texts.len(),
        n <= texts.len(),
        forall|i: int| 0 <= i < texts.len() ==> written(#[trigger] items[i]) == texts[i],
    ensures
        written_items(items, n) == wire::listed(texts.take(n as int)),
    decreases n,
{
    let part = texts.take(n as int);
    if n > 1 {
        lemma_list(items, texts, (n - 1) as nat);
        assert(part.drop_last() =~= texts.take(n - 1));
        assert(part.last() == texts[n - 1]);
    }
}

proof fn lemma_array(items: Seq<Json>, texts: Seq<Seq<char>>)
    requires
        items.len() == texts.len(),
        forall|i: int| 0 <= i < texts.len() ==> written(#[trigger] items[i]) == texts[i],
    ensures
        written(Json::List(items)) == wire::array(texts),
{
    lemma_list(items, texts, texts.len());
    assert(texts.take(texts.len() as int) =~= texts);
    assert(Seq::<char>::empty() + "["@ =~= "["@);
}

/// The only member of its name is found.
proof fn lemma_says(members: Seq<(Seq<char>, Json)>, i: int)
    requires
        0 <= i < members.len(),
        forall|k: int|
            0 <= k < members.len() && (#[trigger] members[k]).0 == members[i].0 ==> k == i,
    ensures
        says(Json::Object(members), members[i].0, members[i].1),
{
    let json = Json::Object(members);
    assert(json is Object);
    assert(json->Object_0 == members);
    assert(stands_at(json->Object_0, i, members[i].0, members[i].1));
}

/// Whether an object tells of an issue.
pub open spec fn reads_issue(json: Json, issue: IssueView) -> bool {
    &&& says(json, "code"@, Json::Text(issue.code))
    &&& says(json, "operation"@, Json::Text(issue.operation))
    &&& says(json, "scope"@, Json::Text(issue_scope_word(issue.scope)))
    &&& match issue.entry_id {
        Some(id) => says(json, "entryId"@, Json::Text(id)),
        None => is_silent(json, "entryId"@),
    }
    &&& match issue.native_code {
        Some(code) => says(json, "nativeCode"@, Json::Number(code as int)),
        None => is_silent(json, "nativeCode"@),
    }
}

spec fn issue_members(issue: IssueView) -> Seq<(Seq<char>, Json)> {
    let base = seq![
        ("code"@, Json::Text(issue.code)),
        ("operation"@, Json::Text(issue.operation)),
        ("scope"@, Json::Text(issue_scope_word(issue.scope))),
    ];
    let base = match issue.entry_id {
        Some(id) => base.push(("entryId"@, Json::Text(id))),
        None => base,
    };
    match issue.native_code {
        Some(code) => base.push(("nativeCode"@, Json::Number(code as int))),
        None => base,
    }
}

spec fn issue_value(issue: IssueView) -> Json {
    Json::Object(issue_members(issue))
}

/// The JSON form of an issue says what the issue says, each under its name; what is absent has no
/// member.
#[verifier::spinoff_prover]
pub proof fn an_issue_reads_back(issue: IssueView)
    ensures
        exists|json: Json| written(json) == wire::issue_json(issue) && reads_issue(json, issue),
{
    lemma_issue_value(issue);
}

#[verifier::spinoff_prover]
proof fn lemma_issue_value(issue: IssueView)
    ensures
        written(issue_value(issue)) == wire::issue_json(issue),
        reads_issue(issue_value(issue), issue),
{
    reveal(wire::issue_json);
    let members = issue_members(issue);
    lemma_issue_scope_word(issue.scope);
    reveal_strlit("code");
    reveal_strlit("operation");
    reveal_strlit("scope");
    reveal_strlit("entryId");
    reveal_strlit("nativeCode");
    assert("code"@.len() == 4);
    assert("operation"@.len() == 9);
    assert("scope"@.len() == 5);
    assert("entryId"@.len() == 7);
    assert("nativeCode"@.len() == 10);
    lemma_key_first_code();
    lemma_member(members, 1);
    lemma_says(members, 0);
    lemma_key_next_operation();
    lemma_member(members, 2);
    lemma_says(members, 1);
    lemma_key_next_scope();
    lemma_member(members, 3);
    lemma_says(members, 2);
    lemma_key_next_entry_id();
    lemma_key_next_native_code();
    if members.len() >= 4 {
        lemma_member(members, 4);
        lemma_says(members, 3);
    }
    if members.len() >= 5 {
        lemma_member(members, 5);
        lemma_says(members, 4);
    }
}

proof fn lemma_text_known()
    ensures
        "{\"state\":\"known\",\"value\":"@ == key_text(false, "state"@) + quoted("known"@) + key_text(true, "value"@),
{
    reveal_strlit("{\"state\":\"known\",\"value\":");
    lemma_key_first_state();
    reveal_strlit("known");
    lemma_plain("known"@);
    lemma_key_next_value();
    reveal_strlit(",\"value\":");
    reveal_strlit("{\"state\":");
    assert("{\"state\":\"known\",\"value\":"@ =~= key_text(false, "state"@) + quoted("known"@) + key_text(true, "value"@));
}

proof fn lemma_text_unknown()
    ensures
        "{\"state\":\"unknown\"}"@ == key_text(false, "state"@) + quoted("unknown"@) + "}"@,
{
    reveal_strlit("{\"state\":\"unknown\"}");
    lemma_key_first_state();
    reveal_strlit("unknown");
    lemma_plain("unknown"@);
    reveal_strlit("{\"state\":");
    reveal_strlit("}");
    assert("{\"state\":\"unknown\"}"@ =~= key_text(false, "state"@) + quoted("unknown"@) + "}"@);
}

proof fn lemma_text_unsupported()
    ensures
        "{\"state\":\"unsupported\"}"@ == key_text(false, "state"@) + quoted("unsupported"@) + "}"@,
{
    reveal_strlit("{\"state\":\"unsupported\"}");
    lemma_key_first_state();
    reveal_strlit("unsupported");
    lemma_plain("unsupported"@);
    reveal_strlit("{\"state\":");
    reveal_strlit("}");
    assert("{\"state\":\"unsupported\"}"@ =~= key_text(false, "state"@) + quoted("unsupported"@) + "}"@);
}

proof fn lemma_text_error()
    ensures
        "{\"state\":\"error\",\"issue\":"@ == key_text(false, "state"@) + quoted("error"@) + key_text(true, "issue"@),
{
    reveal_strlit("{\"state\":\"error\",\"issue\":");
    lemma_key_first_state();
    reveal_strlit("error");
    lemma_plain("error"@);
    lemma_key_next_issue();
    reveal_strlit(",\"issue\":");
    reveal_strlit("{\"state\":");
    assert("{\"state\":\"error\",\"issue\":"@ =~= key_text(false, "state"@) + quoted("error"@) + key_text(true, "issue"@));
}

proof fn lemma_text_complete()
    ensures
        "{\"state\":\"complete\",\"bytes\":"@ == key_text(false, "state"@) + quoted("complete"@) + key_text(true, "bytes"@),
{
    reveal_strlit("{\"state\":\"complete\",\"bytes\":");
    lemma_key_first_state();
    reveal_strlit("complete");
    lemma_plain("complete"@);
    lemma_key_next_bytes();
    reveal_strlit(",\"bytes\":");
    reveal_strlit("{\"state\":");
    assert("{\"state\":\"complete\",\"bytes\":"@ =~= key_text(false, "state"@) + quoted("complete"@) + key_text(true, "bytes"@));
}

proof fn lemma_text_partial()
    ensures
        "{\"state\":\"partial\",\"observedBytes\":"@ == key_text(false, "state"@) + quoted("partial"@) + key_text(true, "observedBytes"@),
{
    reveal_strlit("{\"state\":\"partial\",\"observedBytes\":");
    lemma_key_first_state();
    reveal_strlit("partial");
    lemma_plain("partial"@);
    lemma_key_next_observed_bytes();
    reveal_strlit(",\"observedBytes\":");
    reveal_strlit("{\"state\":");
    assert("{\"state\":\"partial\",\"observedBytes\":"@ =~= key_text(false, "state"@) + quoted("partial"@) + key_text(true, "observedBytes"@));
}

proof fn lemma_text_unavailable()
    ensures
        "{\"state\":\"unavailable\",\"reason\":"@ == key_text(false, "state"@) + quoted("unavailable"@) + key_text(true, "reason"@),
{
    reveal_strlit("{\"state\":\"unavailable\",\"reason\":");
    lemma_key_first_state();
    reveal_strlit("unavailable");
    lemma_plain("unavailable"@);
    lemma_key_next_reason();
    reveal_strlit(",\"reason\":");
    reveal_strlit("{\"state\":");
    assert("{\"state\":\"unavailable\",\"reason\":"@ =~= key_text(false, "state"@) + quoted("unavailable"@) + key_text(true, "reason"@));
}

/// Whether an object tells of a field and how much is known of it.
pub open spec fn reads_flag_field(json: Json, field: FieldView<bool>) -> bool {
    match field {
        FieldView::Known { value } => {
            &&& says(json, "state"@, Json::Text("known"@))
            &&& says(json, "value"@, Json::Flag(value))
        },
        FieldView::Unknown => says(json, "state"@, Json::Text("unknown"@)) && has_members(json, 1),
        FieldView::Unsupported => says(json, "state"@, Json::Text("unsupported"@)) && has_members(
            json,
            1,
        ),
        FieldView::Error { issue } => {
            &&& says(json, "state"@, Json::Text("error"@))
            &&& exists|inner: Json| reads_issue(inner, issue) && #[trigger] says(
                json,
                "issue"@,
                inner,
            )
        },
    }
}

spec fn flag_field_members(field: FieldView<bool>) -> Seq<(Seq<char>, Json)> {
    match field {
        FieldView::Known { value } => seq![
            ("state"@, Json::Text("known"@)),
            ("value"@, Json::Flag(value)),
        ],
        FieldView::Unknown => seq![("state"@, Json::Text("unknown"@))],
        FieldView::Unsupported => seq![("state"@, Json::Text("unsupported"@))],
        FieldView::Error { issue } => seq![
            ("state"@, Json::Text("error"@)),
            ("issue"@, issue_value(issue)),
        ],
    }
}

spec fn flag_field_value(field: FieldView<bool>) -> Json {
    Json::Object(flag_field_members(field))
}

#[verifier::spinoff_prover]
proof fn lemma_flag_field_value(field: FieldView<bool>)
    ensures
        written(flag_field_value(field)) == wire::flag_field_json(field),
        reads_flag_field(flag_field_value(field), field),
{
    let members = flag_field_members(field);
    reveal_strlit("state");
    reveal_strlit("value");
    reveal_strlit("issue");
    assert("state"@.len() == 5);
    assert("value"@.len() == 5);
    assert("issue"@.len() == 5);
    assert("state"@[0] != "value"@[0]);
    assert("state"@[0] != "issue"@[0]);
    assert("value"@[0] != "issue"@[0]);
    lemma_key_first_state();
    lemma_key_next_value();
    lemma_key_next_issue();
    lemma_member(members, 1);
    lemma_says(members, 0);
    match field {
        FieldView::Known { value } => {
            lemma_text_known();
            
            lemma_member(members, 2);
            lemma_says(members, 1);
            let text = wire::bool_json(value);
            assert(written_members(members, 2) =~= "{\"state\":\"known\",\"value\":"@ + text);
        },
        FieldView::Unknown => {
            lemma_text_unknown();
            assert(written(flag_field_value(field)) =~= "{\"state\":\"unknown\"}"@);
        },
        FieldView::Unsupported => {
            lemma_text_unsupported();
            assert(written(flag_field_value(field)) =~= "{\"state\":\"unsupported\"}"@);
        },
        FieldView::Error { issue } => {
            lemma_text_error();
            lemma_issue_value(issue);
            lemma_member(members, 2);
            lemma_says(members, 1);
            assert(written_members(members, 2) =~= "{\"state\":\"error\",\"issue\":"@
                + wire::issue_json(issue));
        },
    }
}

/// Whether an object tells of a field and how much is known of it.
pub open spec fn reads_special_field(json: Json, field: FieldView<SpecialType>) -> bool {
    match field {
        FieldView::Known { value } => {
            &&& says(json, "state"@, Json::Text("known"@))
            &&& says(json, "value"@, Json::Text(special_type_word(value)))
        },
        FieldView::Unknown => says(json, "state"@, Json::Text("unknown"@)) && has_members(json, 1),
        FieldView::Unsupported => says(json, "state"@, Json::Text("unsupported"@)) && has_members(
            json,
            1,
        ),
        FieldView::Error { issue } => {
            &&& says(json, "state"@, Json::Text("error"@))
            &&& exists|inner: Json| reads_issue(inner, issue) && #[trigger] says(
                json,
                "issue"@,
                inner,
            )
        },
    }
}

spec fn special_field_members(field: FieldView<SpecialType>) -> Seq<(Seq<char>, Json)> {
    match field {
        FieldView::Known { value } => seq![
            ("state"@, Json::Text("known"@)),
            ("value"@, Json::Text(special_type_word(value))),
        ],
        FieldView::Unknown => seq![("state"@, Json::Text("unknown"@))],
        FieldView::Unsupported => seq![("state"@, Json::Text("unsupported"@))],
        FieldView::Error { issue } => seq![
            ("state"@, Json::Text("error"@)),
            ("issue"@, issue_value(issue)),
        ],
    }
}

spec fn special_field_value(field: FieldView<SpecialType>) -> Json {
    Json::Object(special_field_members(field))
}

#[verifier::spinoff_prover]
proof fn lemma_special_field_value(field: FieldView<SpecialType>)
    ensures
        written(special_field_value(field)) == wire::special_field_json(field),
        reads_special_field(special_field_value(field), field),
{
    let members = special_field_members(field);
    reveal_strlit("state");
    reveal_strlit("value");
    reveal_strlit("issue");
    assert("state"@.len() == 5);
    assert("value"@.len() == 5);
    assert("issue"@.len() == 5);
    assert("state"@[0] != "value"@[0]);
    assert("state"@[0] != "issue"@[0]);
    assert("value"@[0] != "issue"@[0]);
    lemma_key_first_state();
    lemma_key_next_value();
    lemma_key_next_issue();
    lemma_member(members, 1);
    lemma_says(members, 0);
    match field {
        FieldView::Known { value } => {
            lemma_text_known();
            lemma_special_type_word(value);
            lemma_member(members, 2);
            lemma_says(members, 1);
            let text = wire::special_type_json(value);
            assert(written_members(members, 2) =~= "{\"state\":\"known\",\"value\":"@ + text);
        },
        FieldView::Unknown => {
            lemma_text_unknown();
            assert(written(special_field_value(field)) =~= "{\"state\":\"unknown\"}"@);
        },
        FieldView::Unsupported => {
            lemma_text_unsupported();
            assert(written(special_field_value(field)) =~= "{\"state\":\"unsupported\"}"@);
        },
        FieldView::Error { issue } => {
            lemma_text_error();
            lemma_issue_value(issue);
            lemma_member(members, 2);
            lemma_says(members, 1);
            assert(written_members(members, 2) =~= "{\"state\":\"error\",\"issue\":"@
                + wire::issue_json(issue));
        },
    }
}

/// Whether an object tells of a field and how much is known of it.
pub open spec fn reads_text_field(json: Json, field: FieldView<Seq<char>>) -> bool {
    match field {
        FieldView::Known { value } => {
            &&& says(json, "state"@, Json::Text("known"@))
            &&& says(json, "value"@, Json::Text(value))
        },
        FieldView::Unknown => says(json, "state"@, Json::Text("unknown"@)) && has_members(json, 1),
        FieldView::Unsupported => says(json, "state"@, Json::Text("unsupported"@)) && has_members(
            json,
            1,
        ),
        FieldView::Error { issue } => {
            &&& says(json, "state"@, Json::Text("error"@))
            &&& exists|inner: Json| reads_issue(inner, issue) && #[trigger] says(
                json,
                "issue"@,
                inner,
            )
        },
    }
}

spec fn text_field_members(field: FieldView<Seq<char>>) -> Seq<(Seq<char>, Json)> {
    match field {
        FieldView::Known { value } => seq![
            ("state"@, Json::Text("known"@)),
            ("value"@, Json::Text(value)),
        ],
        FieldView::Unknown => seq![("state"@, Json::Text("unknown"@))],
        FieldView::Unsupported => seq![("state"@, Json::Text("unsupported"@))],
        FieldView::Error { issue } => seq![
            ("state"@, Json::Text("error"@)),
            ("issue"@, issue_value(issue)),
        ],
    }
}

spec fn text_field_value(field: FieldView<Seq<char>>) -> Json {
    Json::Object(text_field_members(field))
}

#[verifier::spinoff_prover]
proof fn lemma_text_field_value(field: FieldView<Seq<char>>)
    ensures
        written(text_field_value(field)) == wire::text_field_json(field),
        reads_text_field(text_field_value(field), field),
{
    let members = text_field_members(field);
    reveal_strlit("state");
    reveal_strlit("value");
    reveal_strlit("issue");
    assert("state"@.len() == 5);
    assert("value"@.len() == 5);
    assert("issue"@.len() == 5);
    assert("state"@[0] != "value"@[0]);
    assert("state"@[0] != "issue"@[0]);
    assert("value"@[0] != "issue"@[0]);
    lemma_key_first_state();
    lemma_key_next_value();
    lemma_key_next_issue();
    lemma_member(members, 1);
    lemma_says(members, 0);
    match field {
        FieldView::Known { value } => {
            lemma_text_known();
            
            lemma_member(members, 2);
            lemma_says(members, 1);
            let text = quoted(value);
            assert(written_members(members, 2) =~= "{\"state\":\"known\",\"value\":"@ + text);
        },
        FieldView::Unknown => {
            lemma_text_unknown();
            assert(written(text_field_value(field)) =~= "{\"state\":\"unknown\"}"@);
        },
        FieldView::Unsupported => {
            lemma_text_unsupported();
            assert(written(text_field_value(field)) =~= "{\"state\":\"unsupported\"}"@);
        },
        FieldView::Error { issue } => {
            lemma_text_error();
            lemma_issue_value(issue);
            lemma_member(members, 2);
            lemma_says(members, 1);
            assert(written_members(members, 2) =~= "{\"state\":\"error\",\"issue\":"@
                + wire::issue_json(issue));
        },
    }
}

/// Whether an object tells of a field and how much is known of it.
pub open spec fn reads_bytes_field(json: Json, field: FieldView<nat>) -> bool {
    match field {
        FieldView::Known { value } => {
            &&& says(json, "state"@, Json::Text("known"@))
            &&& exists|inner: Json| reads_bytes(inner, value) && #[trigger] says(json, "value"@, inner)
        },
        FieldView::Unknown => says(json, "state"@, Json::Text("unknown"@)) && has_members(json, 1),
        FieldView::Unsupported => says(json, "state"@, Json::Text("unsupported"@)) && has_members(
            json,
            1,
        ),
        FieldView::Error { issue } => {
            &&& says(json, "state"@, Json::Text("error"@))
            &&& exists|inner: Json| reads_issue(inner, issue) && #[trigger] says(
                json,
                "issue"@,
                inner,
            )
        },
    }
}

spec fn bytes_field_members(field: FieldView<nat>) -> Seq<(Seq<char>, Json)> {
    match field {
        FieldView::Known { value } => seq![
            ("state"@, Json::Text("known"@)),
            ("value"@, bytes_value(value)),
        ],
        FieldView::Unknown => seq![("state"@, Json::Text("unknown"@))],
        FieldView::Unsupported => seq![("state"@, Json::Text("unsupported"@))],
        FieldView::Error { issue } => seq![
            ("state"@, Json::Text("error"@)),
            ("issue"@, issue_value(issue)),
        ],
    }
}

spec fn bytes_field_value(field: FieldView<nat>) -> Json {
    Json::Object(bytes_field_members(field))
}

#[verifier::spinoff_prover]
proof fn lemma_bytes_field_value(field: FieldView<nat>)
    ensures
        written(bytes_field_value(field)) == wire::bytes_field_json(field),
        reads_bytes_field(bytes_field_value(field), field),
{
    let members = bytes_field_members(field);
    reveal_strlit("state");
    reveal_strlit("value");
    reveal_strlit("issue");
    assert("state"@.len() == 5);
    assert("value"@.len() == 5);
    assert("issue"@.len() == 5);
    assert("state"@[0] != "value"@[0]);
    assert("state"@[0] != "issue"@[0]);
    assert("value"@[0] != "issue"@[0]);
    lemma_key_first_state();
    lemma_key_next_value();
    lemma_key_next_issue();
    lemma_member(members, 1);
    lemma_says(members, 0);
    match field {
        FieldView::Known { value } => {
            lemma_text_known();
            lemma_bytes_value(value);
            lemma_member(members, 2);
            lemma_says(members, 1);
            let text = wire::bytes_text(value);
            assert(written_members(members, 2) =~= "{\"state\":\"known\",\"value\":"@ + text);
        },
        FieldView::Unknown => {
            lemma_text_unknown();
            assert(written(bytes_field_value(field)) =~= "{\"state\":\"unknown\"}"@);
        },
        FieldView::Unsupported => {
            lemma_text_unsupported();
            assert(written(bytes_field_value(field)) =~= "{\"state\":\"unsupported\"}"@);
        },
        FieldView::Error { issue } => {
            lemma_text_error();
            lemma_issue_value(issue);
            lemma_member(members, 2);
            lemma_says(members, 1);
            assert(written_members(members, 2) =~= "{\"state\":\"error\",\"issue\":"@
                + wire::issue_json(issue));
        },
    }
}

/// Whether a list names reasons, in order.
pub open spec fn reads_reasons(json: Json, reasons: Seq<Reason>) -> bool {
    json matches Json::List(items) && items.len() == reasons.len() && forall|i: int|
        0 <= i < items.len() ==> #[trigger] items[i] == Json::Text(reason_word(reasons[i]))
}

/// Whether an object tells of a measurement.
pub open spec fn reads_measure(json: Json, measure: MeasureView) -> bool {
    match measure {
        MeasureView::Unknown => says(json, "state"@, Json::Text("unknown"@)) && has_members(json, 1),
        MeasureView::Complete { bytes } => {
            &&& says(json, "state"@, Json::Text("complete"@))
            &&& exists|inner: Json| reads_bytes(inner, bytes) && #[trigger] says(
                json,
                "bytes"@,
                inner,
            )
        },
        MeasureView::Partial { observed_bytes, reasons } => {
            &&& says(json, "state"@, Json::Text("partial"@))
            &&& exists|inner: Json| reads_bytes(inner, observed_bytes) && #[trigger] says(
                json,
                "observedBytes"@,
                inner,
            )
            &&& exists|inner: Json| reads_reasons(inner, reasons) && #[trigger] says(
                json,
                "reasons"@,
                inner,
            )
        },
        MeasureView::Unavailable { reason } => {
            &&& says(json, "state"@, Json::Text("unavailable"@))
            &&& says(json, "reason"@, Json::Text(reason_word(reason)))
        },
    }
}

spec fn reasons_value(reasons: Seq<Reason>) -> Json {
    Json::List(Seq::new(reasons.len(), |i: int| Json::Text(reason_word(reasons[i]))))
}

proof fn lemma_reasons_value(reasons: Seq<Reason>)
    ensures
        written(reasons_value(reasons)) == wire::array(wire::reason_texts(reasons)),
        reads_reasons(reasons_value(reasons), reasons),
{
    let items = Seq::new(reasons.len(), |i: int| Json::Text(reason_word(reasons[i])));
    let texts = wire::reason_texts(reasons);
    assert forall|i: int| 0 <= i < texts.len() implies written(#[trigger] items[i])
        == texts[i] by {
        lemma_reason_word(reasons[i]);
    }
    lemma_array(items, texts);
}

spec fn measure_members(measure: MeasureView) -> Seq<(Seq<char>, Json)> {
    match measure {
        MeasureView::Unknown => seq![("state"@, Json::Text("unknown"@))],
        MeasureView::Complete { bytes } => seq![
            ("state"@, Json::Text("complete"@)),
            ("bytes"@, bytes_value(bytes)),
        ],
        MeasureView::Partial { observed_bytes, reasons } => seq![
            ("state"@, Json::Text("partial"@)),
            ("observedBytes"@, bytes_value(observed_bytes)),
            ("reasons"@, reasons_value(reasons)),
        ],
        MeasureView::Unavailable { reason } => seq![
            ("state"@, Json::Text("unavailable"@)),
            ("reason"@, Json::Text(reason_word(reason))),
        ],
    }
}

spec fn measure_value(measure: MeasureView) -> Json {
    Json::Object(measure_members(measure))
}

#[verifier::spinoff_prover]
proof fn lemma_measure_value(measure: MeasureView)
    ensures
        written(measure_value(measure)) == wire::measure_json(measure),
        reads_measure(measure_value(measure), measure),
{
    let members = measure_members(measure);
    reveal_strlit("state");
    reveal_strlit("bytes");
    reveal_strlit("observedBytes");
    reveal_strlit("reasons");
    reveal_strlit("reason");
    assert("state"@.len() == 5);
    assert("bytes"@.len() == 5);
    assert("observedBytes"@.len() == 13);
    assert("reasons"@.len() == 7);
    assert("reason"@.len() == 6);
    assert("state"@[0] != "bytes"@[0]);
    lemma_member(members, 1);
    lemma_says(members, 0);
    lemma_key_next_reasons();
    match measure {
        MeasureView::Unknown => {
            lemma_text_unknown();
            assert(written(measure_value(measure)) =~= "{\"state\":\"unknown\"}"@);
        },
        MeasureView::Complete { bytes } => {
            lemma_text_complete();
            lemma_bytes_value(bytes);
            lemma_member(members, 2);
            lemma_says(members, 1);
            assert(written_members(members, 2) =~= "{\"state\":\"complete\",\"bytes\":"@
                + wire::bytes_text(bytes));
        },
        MeasureView::Partial { observed_bytes, reasons } => {
            lemma_text_partial();
            lemma_bytes_value(observed_bytes);
            lemma_reasons_value(reasons);
            lemma_member(members, 2);
            lemma_says(members, 1);
            lemma_member(members, 3);
            lemma_says(members, 2);
            assert(written_members(members, 2) =~= "{\"state\":\"partial\",\"observedBytes\":"@
                + wire::bytes_text(observed_bytes));
        },
        MeasureView::Unavailable { reason } => {
            lemma_text_unavailable();
            lemma_reason_word(reason);
            lemma_member(members, 2);
            lemma_says(members, 1);
            assert(written_members(members, 2) =~= "{\"state\":\"unavailable\",\"reason\":"@
                + wire::reason_json(reason));
        },
    }
}

/// The JSON form of a measurement says what the measurement says.
pub proof fn measures_read_back(measure: MeasureView)
    ensures
        exists|json: Json|
            written(json) == wire::measure_json(measure) && reads_measure(json, measure),
{
    lemma_measure_value(measure);
}

/// Whether an object tells how often each code was met.
pub open spec fn reads_counts(json: Json, counts: Map<Seq<char>, nat>) -> bool {
    &&& json is Object
    &&& forall|code: Seq<char>| #[trigger]
        counts.contains_key(code) ==> exists|inner: Json|
            reads_bytes(inner, counts[code]) && #[trigger] says(json, code, inner)
    &&& json matches Json::Object(members) && forall|k: int|
        0 <= k < members.len() ==> counts.contains_key((#[trigger] members[k]).0)
}

/// Whether a list tells of issues, in order.
pub open spec fn reads_samples(json: Json, samples: Seq<IssueView>) -> bool {
    json matches Json::List(items) && items.len() == samples.len() && forall|i: int|
        0 <= i < items.len() ==> reads_issue(#[trigger] items[i], samples[i])
}

/// Whether an object tells of issues.
pub open spec fn reads_issues(json: Json, issues: IssuesView) -> bool {
    &&& exists|inner: Json| reads_counts(inner, issues.counts) && #[trigger] says(
        json,
        "counts"@,
        inner,
    )
    &&& exists|inner: Json| reads_samples(inner, issues.samples) && #[trigger] says(
        json,
        "samples"@,
        inner,
    )
}

spec fn count_members(rows: Seq<(Seq<char>, nat)>) -> Seq<(Seq<char>, Json)> {
    Seq::new(rows.len(), |i: int| (rows[i].0, bytes_value(rows[i].1)))
}

spec fn counts_value(counts: Map<Seq<char>, nat>) -> Json {
    Json::Object(count_members(text_map::rows_of(counts)))
}

proof fn lemma_count_members(rows: Seq<(Seq<char>, nat)>, n: nat)
    requires
        0 < n <= rows.len(),
    ensures
        written_members(count_members(rows), n) == "{"@ + wire::listed(
            wire::count_texts(rows).take(n as int),
        ),
    decreases n,
{
    let members = count_members(rows);
    let texts = wire::count_texts(rows);
    let part = texts.take(n as int);
    let name = rows[n - 1].0;
    lemma_bytes_value(rows[n - 1].1);
    lemma_member(members, n);
    assert(part.last() == texts[n - 1]);
    assert(texts[n - 1] =~= quoted(name) + ":"@ + wire::bytes_text(rows[n - 1].1));
    if n == 1 {
        assert(written_members(members, 0) =~= Seq::<char>::empty());
        assert(written_members(members, 1) =~= "{"@ + part[0]);
    } else {
        lemma_count_members(rows, (n - 1) as nat);
        assert(part.drop_last() =~= texts.take(n - 1));
        assert(written_members(members, n) =~= "{"@ + (wire::listed(part.drop_last()) + ","@
            + part.last()));
    }
}

proof fn lemma_counts_value(counts: Map<Seq<char>, nat>)
    requires
        counts.dom().finite(),
    ensures
        written(counts_value(counts)) == wire::counts_json(counts),
        reads_counts(counts_value(counts), counts),
{
    let rows = text_map::rows_of(counts);
    let members = count_members(rows);
    let texts = wire::count_texts(rows);
    text_map::lemma_rows_of(counts);
    text_map::lemma_map_of(rows);
    text_map::lemma_unique(rows);
    if rows.len() > 0 {
        lemma_count_members(rows, rows.len());
        assert(texts.take(texts.len() as int) =~= texts);
        assert(written(counts_value(counts)) =~= wire::counts_json(counts));
    } else {
        reveal_strlit("{}");
        reveal_strlit("{");
        reveal_strlit("}");
        assert(texts.len() == 0);
        assert(wire::counts_json(counts) =~= "{}"@);
    }
    assert forall|code: Seq<char>| #[trigger] counts.contains_key(code) implies exists|inner: Json|
        reads_bytes(inner, counts[code]) && #[trigger] says(counts_value(counts), code, inner) by {
        let i = choose|i: int| 0 <= i < rows.len() && (#[trigger] rows[i]).0 == code;
        assert(members[i] == (code, bytes_value(rows[i].1)));
        assert forall|k: int| 0 <= k < members.len() && (#[trigger] members[k]).0
            == members[i].0 implies k == i by {
            assert(rows[k].0 == rows[i].0);
        }
        lemma_says(members, i);
        lemma_bytes_value(counts[code]);
        assert(rows[i].1 == counts[code]);
    }
    assert forall|k: int| 0 <= k < members.len() implies counts.contains_key(
        (#[trigger] members[k]).0,
    ) by {
        assert(members[k].0 == rows[k].0);
    }
}

spec fn samples_value(samples: Seq<IssueView>) -> Json {
    Json::List(Seq::new(samples.len(), |i: int| issue_value(samples[i])))
}

proof fn lemma_samples_value(samples: Seq<IssueView>)
    ensures
        written(samples_value(samples)) == wire::array(wire::issue_texts(samples)),
        reads_samples(samples_value(samples), samples),
{
    let items = Seq::new(samples.len(), |i: int| issue_value(samples[i]));
    let texts = wire::issue_texts(samples);
    assert forall|i: int| 0 <= i < texts.len() implies written(#[trigger] items[i])
        == texts[i] by {
        lemma_issue_value(samples[i]);
    }
    lemma_array(items, texts);
    assert forall|i: int| 0 <= i < items.len() implies reads_issue(
        #[trigger] items[i],
        samples[i],
    ) by {
        lemma_issue_value(samples[i]);
    }
}

spec fn issues_members(issues: IssuesView) -> Seq<(Seq<char>, Json)> {
    seq![
        ("counts"@, counts_value(issues.counts)),
        ("samples"@, samples_value(issues.samples)),
    ]
}

spec fn issues_value(issues: IssuesView) -> Json {
    Json::Object(issues_members(issues))
}

#[verifier::spinoff_prover]
proof fn lemma_issues_value(issues: IssuesView)
    requires
        issues.counts.dom().finite(),
    ensures
        written(issues_value(issues)) == wire::issues_json(issues),
        reads_issues(issues_value(issues), issues),
{
    reveal(wire::issues_json);
    let members = issues_members(issues);
    lemma_counts_value(issues.counts);
    lemma_samples_value(issues.samples);
    reveal_strlit("counts");
    reveal_strlit("samples");
    lemma_key_first_counts();
    lemma_key_next_samples();
    lemma_member(members, 1);
    lemma_member(members, 2);
    lemma_says(members, 0);
    lemma_says(members, 1);
    assert(written_members(members, 0) =~= Seq::<char>::empty());
}

/// The JSON form of issues tells how often each code was met, and of every sample, in order.
pub proof fn issues_read_back(issues: IssuesView)
    requires
        issues.counts.dom().finite(),
    ensures
        exists|json: Json| written(json) == wire::issues_json(issues) && reads_issues(json, issues),
{
    lemma_issues_value(issues);
}

/// Whether an object tells of an entry.
pub open spec fn reads_entry(json: Json, entry: EntryView) -> bool {
    &&& says(json, "entryId"@, Json::Text(entry.entry_id))
    &&& exists|inner: Json| reads_optional(inner, entry.parent_id) && #[trigger] says(json, "parentId"@, inner)
    &&& says(json, "displayName"@, Json::Text(entry.display_name))
    &&& says(json, "kind"@, Json::Text(kind_word(entry.kind)))
    &&& exists|inner: Json| reads_flag_field(inner, entry.hidden) && #[trigger] says(json, "hidden"@, inner)
    &&& exists|inner: Json| reads_special_field(inner, entry.special_type) && #[trigger] says(json, "specialType"@, inner)
    &&& exists|inner: Json| reads_text_field(inner, entry.modified_at) && #[trigger] says(json, "modifiedAt"@, inner)
    &&& exists|inner: Json| reads_bytes_field(inner, entry.own_logical_bytes) && #[trigger] says(json, "ownLogicalBytes"@, inner)
    &&& exists|inner: Json| reads_bytes_field(inner, entry.own_allocated_bytes) && #[trigger] says(json, "ownAllocatedBytes"@, inner)
    &&& says(json, "observedAt"@, Json::Text(entry.observed_at))
    &&& says(json, "followPolicy"@, Json::Text(follow_policy_word(entry.follow_policy)))
}

spec fn entry_members(entry: EntryView) -> Seq<(Seq<char>, Json)> {
    seq![
        ("entryId"@, Json::Text(entry.entry_id)),
        ("parentId"@, optional_value(entry.parent_id)),
        ("displayName"@, Json::Text(entry.display_name)),
        ("kind"@, Json::Text(kind_word(entry.kind))),
        ("hidden"@, flag_field_value(entry.hidden)),
        ("specialType"@, special_field_value(entry.special_type)),
        ("modifiedAt"@, text_field_value(entry.modified_at)),
        ("ownLogicalBytes"@, bytes_field_value(entry.own_logical_bytes)),
        ("ownAllocatedBytes"@, bytes_field_value(entry.own_allocated_bytes)),
        ("observedAt"@, Json::Text(entry.observed_at)),
        ("followPolicy"@, Json::Text(follow_policy_word(entry.follow_policy))),
    ]
}

spec fn entry_value(entry: EntryView) -> Json {
    Json::Object(entry_members(entry))
}

#[verifier::spinoff_prover]
#[verifier::rlimit(40)]
proof fn lemma_entry_written(entry: EntryView)
    ensures
        written(entry_value(entry)) == wire::entry_json(entry),
{
    reveal(wire::entry_json);
    let members = entry_members(entry);
    assert(written_members(members, 0) =~= Seq::<char>::empty());
    lemma_optional_value(entry.parent_id);
    lemma_kind_word(entry.kind);
    lemma_flag_field_value(entry.hidden);
    lemma_special_field_value(entry.special_type);
    lemma_text_field_value(entry.modified_at);
    lemma_bytes_field_value(entry.own_logical_bytes);
    lemma_bytes_field_value(entry.own_allocated_bytes);
    lemma_follow_policy_word(entry.follow_policy);
    lemma_key_first_entry_id();
    lemma_key_next_parent_id();
    lemma_key_next_display_name();
    lemma_key_next_kind();
    lemma_key_next_hidden();
    lemma_key_next_special_type();
    lemma_key_next_modified_at();
    lemma_key_next_own_logical_bytes();
    lemma_key_next_own_allocated_bytes();
    lemma_key_next_observed_at();
    lemma_key_next_follow_policy();
    lemma_member(members, 1);
    lemma_member(members, 2);
    lemma_member(members, 3);
    lemma_member(members, 4);
    lemma_member(members, 5);
    lemma_member(members, 6);
    lemma_member(members, 7);
    lemma_member(members, 8);
    lemma_member(members, 9);
    lemma_member(members, 10);
    lemma_member(members, 11);
}

#[verifier::spinoff_prover]
#[verifier::rlimit(40)]
proof fn lemma_entry_reads(entry: EntryView)
    ensures
        reads_entry(entry_value(entry), entry),
{
    let members = entry_members(entry);
    lemma_optional_value(entry.parent_id);
    lemma_kind_word(entry.kind);
    lemma_flag_field_value(entry.hidden);
    lemma_special_field_value(entry.special_type);
    lemma_text_field_value(entry.modified_at);
    lemma_bytes_field_value(entry.own_logical_bytes);
    lemma_bytes_field_value(entry.own_allocated_bytes);
    lemma_follow_policy_word(entry.follow_policy);
    reveal_strlit("entryId");
    reveal_strlit("parentId");
    reveal_strlit("displayName");
    reveal_strlit("kind");
    reveal_strlit("hidden");
    reveal_strlit("specialType");
    reveal_strlit("modifiedAt");
    reveal_strlit("ownLogicalBytes");
    reveal_strlit("ownAllocatedBytes");
    reveal_strlit("observedAt");
    reveal_strlit("followPolicy");
    assert("entryId"@.len() == 7);
    assert("parentId"@.len() == 8);
    assert("displayName"@.len() == 11);
    assert("kind"@.len() == 4);
    assert("hidden"@.len() == 6);
    assert("specialType"@.len() == 11);
    assert("modifiedAt"@.len() == 10);
    assert("ownLogicalBytes"@.len() == 15);
    assert("ownAllocatedBytes"@.len() == 17);
    assert("observedAt"@.len() == 10);
    assert("followPolicy"@.len() == 12);
    assert("displayName"@[0] != "specialType"@[0]);
    assert("modifiedAt"@[0] != "observedAt"@[0]);
    lemma_says(members, 0);
    lemma_says(members, 1);
    lemma_says(members, 2);
    lemma_says(members, 3);
    lemma_says(members, 4);
    lemma_says(members, 5);
    lemma_says(members, 6);
    lemma_says(members, 7);
    lemma_says(members, 8);
    lemma_says(members, 9);
    lemma_says(members, 10);
}

proof fn lemma_entry_value(entry: EntryView)
    ensures
        written(entry_value(entry)) == wire::entry_json(entry),
        reads_entry(entry_value(entry), entry),
{
    lemma_entry_written(entry);
    lemma_entry_reads(entry);
}

/// The JSON form of an entry says what it is the form of, each part under its name.
pub proof fn entries_read_back(entry: EntryView)
    ensures
        exists|json: Json|
            written(json) == wire::entry_json(entry) && reads_entry(json, entry),
{
    lemma_entry_value(entry);
}

/// Whether an object tells of a measured usage.
pub open spec fn reads_usage(json: Json, usage: UsageView) -> bool {
    &&& says(json, "directoryId"@, Json::Text(usage.directory_id))
    &&& says(json, "usageRevision"@, Json::Number(usage.usage_revision as int))
    &&& says(json, "scanState"@, Json::Text(scan_state_word(usage.scan_state)))
    &&& exists|inner: Json| reads_measure(inner, usage.logical) && #[trigger] says(json, "logical"@, inner)
    &&& exists|inner: Json| reads_measure(inner, usage.allocated) && #[trigger] says(json, "allocated"@, inner)
    &&& says(json, "observedAt"@, Json::Text(usage.observed_at))
}

spec fn usage_members(usage: UsageView) -> Seq<(Seq<char>, Json)> {
    seq![
        ("directoryId"@, Json::Text(usage.directory_id)),
        ("usageRevision"@, Json::Number(usage.usage_revision as int)),
        ("scanState"@, Json::Text(scan_state_word(usage.scan_state))),
        ("logical"@, measure_value(usage.logical)),
        ("allocated"@, measure_value(usage.allocated)),
        ("observedAt"@, Json::Text(usage.observed_at)),
    ]
}

spec fn usage_value(usage: UsageView) -> Json {
    Json::Object(usage_members(usage))
}

#[verifier::spinoff_prover]
#[verifier::rlimit(40)]
proof fn lemma_usage_written(usage: UsageView)
    ensures
        written(usage_value(usage)) == wire::usage_json(usage),
{
    reveal(wire::usage_json);
    let members = usage_members(usage);
    assert(written_members(members, 0) =~= Seq::<char>::empty());
    lemma_scan_state_word(usage.scan_state);
    lemma_measure_value(usage.logical);
    lemma_measure_value(usage.allocated);
    lemma_key_first_directory_id();
    lemma_key_next_usage_revision();
    lemma_key_next_scan_state();
    lemma_key_next_logical();
    lemma_key_next_allocated();
    lemma_key_next_observed_at();
    lemma_member(members, 1);
    lemma_member(members, 2);
    lemma_member(members, 3);
    lemma_member(members, 4);
    lemma_member(members, 5);
    lemma_member(members, 6);
}

#[verifier::spinoff_prover]
#[verifier::rlimit(40)]
proof fn lemma_usage_reads(usage: UsageView)
    ensures
        reads_usage(usage_value(usage), usage),
{
    let members = usage_members(usage);
    lemma_scan_state_word(usage.scan_state);
    lemma_measure_value(usage.logical);
    lemma_measure_value(usage.allocated);
    reveal_strlit("directoryId");
    reveal_strlit("usageRevision");
    reveal_strlit("scanState");
    reveal_strlit("logical");
    reveal_strlit("allocated");
    reveal_strlit("observedAt");
    assert("directoryId"@.len() == 11);
    assert("usageRevision"@.len() == 13);
    assert("scanState"@.len() == 9);
    assert("logical"@.len() == 7);
    assert("allocated"@.len() == 9);
    assert("observedAt"@.len() == 10);
    assert("scanState"@[0] != "allocated"@[0]);
    lemma_says(members, 0);
    lemma_says(members, 1);
    lemma_says(members, 2);
    lemma_says(members, 3);
    lemma_says(members, 4);
    lemma_says(members, 5);
}

proof fn lemma_usage_value(usage: UsageView)
    ensures
        written(usage_value(usage)) == wire::usage_json(usage),
        reads_usage(usage_value(usage), usage),
{
    lemma_usage_written(usage);
    lemma_usage_reads(usage);
}

/// The JSON form of a measured usage says what it is the form of, each part under its name.
pub proof fn usages_read_back(usage: UsageView)
    ensures
        exists|json: Json|
            written(json) == wire::usage_json(usage) && reads_usage(json, usage),
{
    lemma_usage_value(usage);
}

/// Whether an object tells of a notification.
pub open spec fn reads_event(json: Json, event: EventView) -> bool {
    &&& says(json, "protocolVersion"@, Json::Number(event.protocol_version as int))
    &&& says(json, "sessionId"@, Json::Text(event.session_id))
    &&& says(json, "generation"@, Json::Number(event.generation as int))
    &&& says(json, "taskId"@, Json::Text(event.task_id))
    &&& says(json, "sequence"@, Json::Number(event.sequence as int))
    &&& says(json, "kind"@, Json::Text(event_kind_word(event.kind)))
    &&& says(json, "observedAt"@, Json::Text(event.observed_at))
}

spec fn event_members(event: EventView) -> Seq<(Seq<char>, Json)> {
    seq![
        ("protocolVersion"@, Json::Number(event.protocol_version as int)),
        ("sessionId"@, Json::Text(event.session_id)),
        ("generation"@, Json::Number(event.generation as int)),
        ("taskId"@, Json::Text(event.task_id)),
        ("sequence"@, Json::Number(event.sequence as int)),
        ("kind"@, Json::Text(event_kind_word(event.kind))),
        ("observedAt"@, Json::Text(event.observed_at)),
    ]
}

spec fn event_value(event: EventView) -> Json {
    Json::Object(event_members(event))
}

#[verifier::spinoff_prover]
#[verifier::rlimit(40)]
proof fn lemma_event_written(event: EventView)
    ensures
        written(event_value(event)) == wire::event_json(event),
{
    reveal(wire::event_json);
    let members = event_members(event);
    assert(written_members(members, 0) =~= Seq::<char>::empty());
    lemma_event_kind_word(event.kind);
    lemma_key_first_protocol_version();
    lemma_key_next_session_id();
    lemma_key_next_generation();
    lemma_key_next_task_id();
    lemma_key_next_sequence();
    lemma_key_next_kind();
    lemma_key_next_observed_at();
    lemma_member(members, 1);
    lemma_member(members, 2);
    lemma_member(members, 3);
    lemma_member(members, 4);
    lemma_member(members, 5);
    lemma_member(members, 6);
    lemma_member(members, 7);
}

#[verifier::spinoff_prover]
#[verifier::rlimit(40)]
proof fn lemma_event_reads(event: EventView)
    ensures
        reads_event(event_value(event), event),
{
    let members = event_members(event);
    lemma_event_kind_word(event.kind);
    reveal_strlit("protocolVersion");
    reveal_strlit("sessionId");
    reveal_strlit("generation");
    reveal_strlit("taskId");
    reveal_strlit("sequence");
    reveal_strlit("kind");
    reveal_strlit("observedAt");
    assert("protocolVersion"@.len() == 15);
    assert("sessionId"@.len() == 9);
    assert("generation"@.len() == 10);
    assert("taskId"@.len() == 6);
    assert("sequence"@.len() == 8);
    assert("kind"@.len() == 4);
    assert("observedAt"@.len() == 10);
    assert("generation"@[0] != "observedAt"@[0]);
    lemma_says(members, 0);
    lemma_says(members, 1);
    lemma_says(members, 2);
    lemma_says(members, 3);
    lemma_says(members, 4);
    lemma_says(members, 5);
    lemma_says(members, 6);
}

proof fn lemma_event_value(event: EventView)
    ensures
        written(event_value(event)) == wire::event_json(event),
        reads_event(event_value(event), event),
{
    lemma_event_written(event);
    lemma_event_reads(event);
}

/// The JSON form of a notification says what it is the form of, each part under its name.
pub proof fn events_read_back(event: EventView)
    ensures
        exists|json: Json|
            written(json) == wire::event_json(event) && reads_event(json, event),
{
    lemma_event_value(event);
}

/// Whether an object tells of a work record.
pub open spec fn reads_work(json: Json, work: WorkView) -> bool {
    &&& says(json, "sessionId"@, Json::Text(work.session_id))
    &&& says(json, "generation"@, Json::Number(work.generation as int))
    &&& says(json, "taskId"@, Json::Text(work.task_id))
    &&& says(json, "operation"@, Json::Text(operation_word(work.operation)))
    &&& says(json, "targetId"@, Json::Text(work.target_id))
    &&& says(json, "phase"@, Json::Text(phase_word(work.phase)))
    &&& match work.wait_reason {
        Some(wait) => says(json, "waitReason"@, Json::Text(wait_reason_word(wait))),
        None => is_silent(json, "waitReason"@),
    }
    &&& says(json, "sequence"@, Json::Number(work.sequence as int))
    &&& exists|inner: Json| reads_bytes(inner, work.processed_entries) && #[trigger] says(json, "processedEntries"@, inner)
    &&& exists|inner: Json| reads_bytes(inner, work.processed_directories) && #[trigger] says(json, "processedDirectories"@, inner)
    &&& says(json, "observedAt"@, Json::Text(work.observed_at))
    &&& exists|inner: Json| reads_issues(inner, work.issues) && #[trigger] says(json, "issues"@, inner)
}

spec fn work_members(work: WorkView) -> Seq<(Seq<char>, Json)> {
    if work.wait_reason is Some {
        seq![
            ("sessionId"@, Json::Text(work.session_id)),
            ("generation"@, Json::Number(work.generation as int)),
            ("taskId"@, Json::Text(work.task_id)),
            ("operation"@, Json::Text(operation_word(work.operation))),
            ("targetId"@, Json::Text(work.target_id)),
            ("phase"@, Json::Text(phase_word(work.phase))),
            ("waitReason"@, Json::Text(wait_reason_word(work.wait_reason->0))),
            ("sequence"@, Json::Number(work.sequence as int)),
            ("processedEntries"@, bytes_value(work.processed_entries)),
            ("processedDirectories"@, bytes_value(work.processed_directories)),
            ("observedAt"@, Json::Text(work.observed_at)),
            ("issues"@, issues_value(work.issues)),
        ]
    } else {
        seq![
            ("sessionId"@, Json::Text(work.session_id)),
            ("generation"@, Json::Number(work.generation as int)),
            ("taskId"@, Json::Text(work.task_id)),
            ("operation"@, Json::Text(operation_word(work.operation))),
            ("targetId"@, Json::Text(work.target_id)),
            ("phase"@, Json::Text(phase_word(work.phase))),
            ("sequence"@, Json::Number(work.sequence as int)),
            ("processedEntries"@, bytes_value(work.processed_entries)),
            ("processedDirectories"@, bytes_value(work.processed_directories)),
            ("observedAt"@, Json::Text(work.observed_at)),
            ("issues"@, issues_value(work.issues)),
        ]
    }
}

spec fn work_value(work: WorkView) -> Json {
    Json::Object(work_members(work))
}

#[verifier::spinoff_prover]
#[verifier::rlimit(40)]
proof fn lemma_work_written(work: WorkView)
    requires
        work.issues.counts.dom().finite(),
    ensures
        written(work_value(work)) == wire::work_json(work),
{
    reveal(wire::work_json);
    let members = work_members(work);
    assert(written_members(members, 0) =~= Seq::<char>::empty());
    lemma_operation_word(work.operation);
    lemma_phase_word(work.phase);
    if work.wait_reason is Some {
        lemma_wait_reason_word(work.wait_reason->0);
    }
    lemma_bytes_value(work.processed_entries);
    lemma_bytes_value(work.processed_directories);
    lemma_issues_value(work.issues);
    lemma_key_first_session_id();
    lemma_key_next_generation();
    lemma_key_next_task_id();
    lemma_key_next_operation();
    lemma_key_next_target_id();
    lemma_key_next_phase();
    lemma_key_next_wait_reason();
    lemma_key_next_sequence();
    lemma_key_next_processed_entries();
    lemma_key_next_processed_directories();
    lemma_key_next_observed_at();
    lemma_key_next_issues();
    lemma_member(members, 1);
    lemma_member(members, 2);
    lemma_member(members, 3);
    lemma_member(members, 4);
    lemma_member(members, 5);
    lemma_member(members, 6);
    lemma_member(members, 7);
    lemma_member(members, 8);
    lemma_member(members, 9);
    lemma_member(members, 10);
    lemma_member(members, 11);
    if work.wait_reason is Some {
        lemma_member(members, 12);
    }
}

#[verifier::spinoff_prover]
#[verifier::rlimit(40)]
proof fn lemma_work_reads(work: WorkView)
    requires
        work.issues.counts.dom().finite(),
    ensures
        reads_work(work_value(work), work),
{
    let members = work_members(work);
    lemma_operation_word(work.operation);
    lemma_phase_word(work.phase);
    if work.wait_reason is Some {
        lemma_wait_reason_word(work.wait_reason->0);
    }
    lemma_bytes_value(work.processed_entries);
    lemma_bytes_value(work.processed_directories);
    lemma_issues_value(work.issues);
    reveal_strlit("sessionId");
    reveal_strlit("generation");
    reveal_strlit("taskId");
    reveal_strlit("operation");
    reveal_strlit("targetId");
    reveal_strlit("phase");
    reveal_strlit("waitReason");
    reveal_strlit("sequence");
    reveal_strlit("processedEntries");
    reveal_strlit("processedDirectories");
    reveal_strlit("observedAt");
    reveal_strlit("issues");
    assert("sessionId"@.len() == 9);
    assert("generation"@.len() == 10);
    assert("taskId"@.len() == 6);
    assert("operation"@.len() == 9);
    assert("targetId"@.len() == 8);
    assert("phase"@.len() == 5);
    assert("waitReason"@.len() == 10);
    assert("sequence"@.len() == 8);
    assert("processedEntries"@.len() == 16);
    assert("processedDirectories"@.len() == 20);
    assert("observedAt"@.len() == 10);
    assert("issues"@.len() == 6);
    assert("sessionId"@[0] != "operation"@[0]);
    assert("generation"@[0] != "waitReason"@[0]);
    assert("generation"@[0] != "observedAt"@[0]);
    assert("taskId"@[0] != "issues"@[0]);
    assert("targetId"@[0] != "sequence"@[0]);
    assert("waitReason"@[0] != "observedAt"@[0]);
    lemma_says(members, 0);
    lemma_says(members, 1);
    lemma_says(members, 2);
    lemma_says(members, 3);
    lemma_says(members, 4);
    lemma_says(members, 5);
    lemma_says(members, 6);
    lemma_says(members, 7);
    lemma_says(members, 8);
    lemma_says(members, 9);
    lemma_says(members, 10);
    if work.wait_reason is Some {
        lemma_says(members, 11);
    }
}

proof fn lemma_work_value(work: WorkView)
    requires
        work.issues.counts.dom().finite(),
    ensures
        written(work_value(work)) == wire::work_json(work),
        reads_work(work_value(work), work),
{
    lemma_work_written(work);
    lemma_work_reads(work);
}

/// The JSON form of a work record says what it is the form of, each part under its name.
pub proof fn work_reads_back(work: WorkView)
    requires
        work.issues.counts.dom().finite(),
    ensures
        exists|json: Json|
            written(json) == wire::work_json(work) && reads_work(json, work),
{
    lemma_work_value(work);
}

/// Whether a list tells of entries, in order.
pub open spec fn reads_entries(json: Json, entries: Seq<EntryView>) -> bool {
    json matches Json::List(items) && items.len() == entries.len() && forall|i: int|
        0 <= i < items.len() ==> reads_entry(#[trigger] items[i], entries[i])
}

spec fn entries_value(entries: Seq<EntryView>) -> Json {
    Json::List(Seq::new(entries.len(), |i: int| entry_value(entries[i])))
}

proof fn lemma_entries_value(entries: Seq<EntryView>)
    ensures
        written(entries_value(entries)) == wire::array(wire::entry_texts(entries)),
        reads_entries(entries_value(entries), entries),
{
    let items = Seq::new(entries.len(), |i: int| entry_value(entries[i]));
    let texts = wire::entry_texts(entries);
    assert forall|i: int| 0 <= i < texts.len() implies written(#[trigger] items[i])
        == texts[i] by {
        lemma_entry_value(entries[i]);
    }
    lemma_array(items, texts);
    assert forall|i: int| 0 <= i < items.len() implies reads_entry(
        #[trigger] items[i],
        entries[i],
    ) by {
        lemma_entry_value(entries[i]);
    }
}

/// The JSON array of usages tells of every usage, in order.
pub proof fn usage_lists_read_back(usages: Seq<UsageView>)
    ensures
        exists|items: Seq<Json>|
            {
                &&& #[trigger] written(Json::List(items)) == wire::array(wire::usage_texts(usages))
                &&& items.len() == usages.len()
                &&& forall|i: int|
                    0 <= i < items.len() ==> reads_usage(#[trigger] items[i], usages[i])
            },
{
    let items = Seq::new(usages.len(), |i: int| usage_value(usages[i]));
    let texts = wire::usage_texts(usages);
    assert forall|i: int| 0 <= i < texts.len() implies written(#[trigger] items[i])
        == texts[i] by {
        lemma_usage_value(usages[i]);
    }
    lemma_array(items, texts);
    assert forall|i: int| 0 <= i < items.len() implies reads_usage(
        #[trigger] items[i],
        usages[i],
    ) by {
        lemma_usage_value(usages[i]);
    }
    assert(written(Json::List(items)) == wire::array(texts));
}

/// Whether an object tells of a page.
pub open spec fn reads_page(json: Json, page: PageView) -> bool {
    &&& exists|inner: Json| reads_work(inner, page.work) && #[trigger] says(json, "work"@, inner)
    &&& says(json, "listingRevision"@, Json::Text(page.listing_revision))
    &&& says(json, "directoryId"@, Json::Text(page.directory_id))
    &&& says(json, "category"@, Json::Text(category_word(page.category)))
    &&& exists|inner: Json| reads_entries(inner, page.entries) && #[trigger] says(json, "entries"@, inner)
    &&& exists|inner: Json| reads_optional(inner, page.cursor) && #[trigger] says(json, "cursor"@, inner)
    &&& exists|inner: Json| reads_optional(inner, page.next_cursor) && #[trigger] says(json, "nextCursor"@, inner)
    &&& says(json, "coverage"@, Json::Text(coverage_word(page.coverage)))
    &&& exists|inner: Json| reads_issues(inner, page.issues) && #[trigger] says(json, "issues"@, inner)
}

spec fn page_members(page: PageView) -> Seq<(Seq<char>, Json)> {
    seq![
        ("work"@, work_value(page.work)),
        ("listingRevision"@, Json::Text(page.listing_revision)),
        ("directoryId"@, Json::Text(page.directory_id)),
        ("category"@, Json::Text(category_word(page.category))),
        ("entries"@, entries_value(page.entries)),
        ("cursor"@, optional_value(page.cursor)),
        ("nextCursor"@, optional_value(page.next_cursor)),
        ("coverage"@, Json::Text(coverage_word(page.coverage))),
        ("issues"@, issues_value(page.issues)),
    ]
}

spec fn page_value(page: PageView) -> Json {
    Json::Object(page_members(page))
}

#[verifier::spinoff_prover]
#[verifier::rlimit(40)]
proof fn lemma_page_written(page: PageView)
    requires
        page.work.issues.counts.dom().finite(),
        page.issues.counts.dom().finite(),
    ensures
        written(page_value(page)) == wire::page_json(page),
{
    reveal(wire::page_json);
    let members = page_members(page);
    assert(written_members(members, 0) =~= Seq::<char>::empty());
    lemma_work_value(page.work);
    lemma_category_word(page.category);
    lemma_entries_value(page.entries);
    lemma_optional_value(page.cursor);
    lemma_optional_value(page.next_cursor);
    lemma_coverage_word(page.coverage);
    lemma_issues_value(page.issues);
    lemma_key_first_work();
    lemma_key_next_listing_revision();
    lemma_key_next_directory_id();
    lemma_key_next_category();
    lemma_key_next_entries();
    lemma_key_next_cursor();
    lemma_key_next_next_cursor();
    lemma_key_next_coverage();
    lemma_key_next_issues();
    lemma_member(members, 1);
    lemma_member(members, 2);
    lemma_member(members, 3);
    lemma_member(members, 4);
    lemma_member(members, 5);
    lemma_member(members, 6);
    lemma_member(members, 7);
    lemma_member(members, 8);
    lemma_member(members, 9);
}

#[verifier::spinoff_prover]
#[verifier::rlimit(40)]
proof fn lemma_page_reads(page: PageView)
    requires
        page.work.issues.counts.dom().finite(),
        page.issues.counts.dom().finite(),
    ensures
        reads_page(page_value(page), page),
{
    let members = page_members(page);
    lemma_work_value(page.work);
    lemma_category_word(page.category);
    lemma_entries_value(page.entries);
    lemma_optional_value(page.cursor);
    lemma_optional_value(page.next_cursor);
    lemma_coverage_word(page.coverage);
    lemma_issues_value(page.issues);
    reveal_strlit("work");
    reveal_strlit("listingRevision");
    reveal_strlit("directoryId");
    reveal_strlit("category");
    reveal_strlit("entries");
    reveal_strlit("cursor");
    reveal_strlit("nextCursor");
    reveal_strlit("coverage");
    reveal_strlit("issues");
    assert("work"@.len() == 4);
    assert("listingRevision"@.len() == 15);
    assert("directoryId"@.len() == 11);
    assert("category"@.len() == 8);
    assert("entries"@.len() == 7);
    assert("cursor"@.len() == 6);
    assert("nextCursor"@.len() == 10);
    assert("coverage"@.len() == 8);
    assert("issues"@.len() == 6);
    assert("category"@[1] != "coverage"@[1]);
    assert("cursor"@[0] != "issues"@[0]);
    lemma_says(members, 0);
    lemma_says(members, 1);
    lemma_says(members, 2);
    lemma_says(members, 3);
    lemma_says(members, 4);
    lemma_says(members, 5);
    lemma_says(members, 6);
    lemma_says(members, 7);
    lemma_says(members, 8);
}

proof fn lemma_page_value(page: PageView)
    requires
        page.work.issues.counts.dom().finite(),
        page.issues.counts.dom().finite(),
    ensures
        written(page_value(page)) == wire::page_json(page),
        reads_page(page_value(page), page),
{
    lemma_page_written(page);
    lemma_page_reads(page);
}

/// The JSON form of a page says what it is the form of, each part under its name.
pub proof fn pages_read_back(page: PageView)
    requires
        page.work.issues.counts.dom().finite(),
        page.issues.counts.dom().finite(),
    ensures
        exists|json: Json|
            written(json) == wire::page_json(page) && reads_page(json, page),
{
    lemma_page_value(page);
}

} // verus!
