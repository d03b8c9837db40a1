//! Values of the wire protocol.
use vstd::prelude::*;

use crate::text;
use crate::text::{numeral, same_optional, same_text};
use crate::text_map;
use crate::text_map::TextMap;

verus! {

/// A value that can be copied and compared by what it shows.
pub trait Value: View + Sized {
    /// A second value that shows the same.
    fn copy(&self) -> (other: Self)
        ensures
            other@ == self@,
    ;

    /// Whether both values show the same.
    fn same(&self, other: &Self) -> (same: bool)
        ensures
            same == (self@ == other@),
    ;
}

impl Value for bool {
    fn copy(&self) -> Self {
        *self
    }

    fn same(&self, other: &Self) -> bool {
        *self == *other
    }
}

impl Value for String {
    fn copy(&self) -> Self {
        self.clone()
    }

    fn same(&self, other: &Self) -> bool {
        same_text(self.as_str(), other.as_str())
    }
}

/// Exact nonnegative wire integer: the canonical decimal numeral of its value.
#[derive(Debug, PartialEq, Eq)]
pub struct Bytes(String);

impl View for Bytes {
    type V = nat;

    closed spec fn view(&self) -> nat {
        text::number(self.0@)
    }
}

impl Bytes {
    #[verifier::type_invariant]
    spec fn is_canonical(self) -> bool {
        text::canonical(self.0@)
    }

    /// The wire integer of a number.
    pub fn of(value: u128) -> (bytes: Self)
        ensures
            bytes@ == value,
    {
        proof {
            text::lemma_decimal(value as nat);
        }
        Bytes(numeral(value))
    }

    /// Reads a numeral. Anything but the canonical numeral of a number is refused.
    pub fn parse(text: &str) -> (bytes: Option<Self>)
        ensures
            bytes is Some <==> text::canonical(text@),
            bytes is Some ==> bytes->0@ == text::number(text@) && text::decimal(bytes->0@) == text@,
    {
        if is_numeral(text) {
            proof {
                text::lemma_canonical(text@);
            }
            Some(Bytes(text.to_owned()))
        } else {
            None
        }
    }

    /// The numeral.
    pub fn text(&self) -> (text: &str)
        ensures
            text@ == text::decimal(self@),
    {
        proof {
            use_type_invariant(self);
            text::lemma_canonical(self.0@);
        }
        self.0.as_str()
    }

    /// The number, when 64 bits can hold it.
    pub fn to_u64(&self) -> (value: Option<u64>)
        ensures
            value == (if self@ <= u64::MAX {
                Some(self@ as u64)
            } else {
                None
            }),
    {
        proof {
            use_type_invariant(self);
            text::lemma_digits_are_bytes(self.0@);
        }
        let ghost text = self.0@;
        let bytes = self.0.as_str().as_bytes();
        let mut value: u64 = 0;
        let mut i: usize = 0;
        assert(text.take(0) =~= Seq::<char>::empty());
        while i < bytes.len()
            invariant
                i <= bytes.len(),
                bytes@ == Seq::new(text.len(), |j: int| text[j] as u8),
                forall|j: int| 0 <= j < text.len() ==> text::is_digit(#[trigger] text[j]),
                value == text::number(text.take(i as int)),
                text == self.0@,
            decreases bytes.len() - i,
        {
            assert(text::is_digit(text[i as int]));
            let last: u64 = (bytes[i] - 48) as u64;
            let ghost next = text.take(i + 1);
            assert(next.drop_last() =~= text.take(i as int));
            assert(next.last() == text[i as int]);
            assert(text::number(next) == value * 10 + last);
            proof {
                lemma_number_prefix(text, i + 1);
            }
            if value > 1844674407370955161 || (value == 1844674407370955161 && last > 5) {
                return None;
            }
            value = value * 10 + last;
            i = i + 1;
        }
        assert(text.take(i as int) =~= text);
        Some(value)
    }
}

/// A prefix of a run of digits denotes no more than the whole.
proof fn lemma_number_prefix(text: Seq<char>, len: int)
    requires
        forall|j: int| 0 <= j < text.len() ==> text::is_digit(#[trigger] text[j]),
        0 <= len <= text.len(),
    ensures
        text::number(text.take(len)) <= text::number(text),
    decreases text.len() - len,
{
    if len == text.len() {
        assert(text.take(len) =~= text);
    } else {
        lemma_number_prefix(text, len + 1);
        let next = text.take(len + 1);
        assert(next.drop_last() =~= text.take(len));
        assert(text::is_digit(text[len]));
    }
}

/// Whether a text is a canonical numeral.
pub fn is_numeral(text: &str) -> (valid: bool)
    ensures
        valid == text::canonical(text@),
{
    let bytes = text.as_bytes();
    if !text.is_ascii() {
        proof {
            if text::canonical(text@) {
                assert forall|i: int| 0 <= i < text@.len() implies '\0' <= #[trigger] text@[i]
                    <= '\u{7f}' by {
                    assert(text::is_digit(text@[i]));
                }
            }
        }
        return false;
    }
    proof {
        vstd::utf8::is_ascii_chars_encode_utf8(text@);
    }
    if bytes.len() == 0 || (bytes.len() > 1 && bytes[0] == 48) {
        assert(bytes@.len() == text@.len());
        assert(text@.len() > 0 ==> text@[0] as u8 == bytes@[0]);
        return false;
    }
    let mut i: usize = 0;
    while i < bytes.len()
        invariant
            i <= bytes.len(),
            bytes@ == text::utf8(text@),
            bytes@.len() == text@.len(),
            vstd::utf8::is_ascii_chars(text@),
            forall|j: int|
                #![trigger text@[j]]
                0 <= j < text@.len() ==> text@[j] as u8 == bytes@[j],
            forall|j: int| 0 <= j < i ==> text::is_digit(#[trigger] text@[j]),
        decreases bytes.len() - i,
    {
        assert(text@[i as int] as u8 == bytes@[i as int]);
        if bytes[i] < 48 || bytes[i] > 57 {
            assert(!text::is_digit(text@[i as int]));
            return false;
        }
        i = i + 1;
    }
    assert(text@[0] as u8 == bytes@[0]);
    true
}

impl Value for Bytes {
    fn copy(&self) -> (other: Self) {
        proof {
            use_type_invariant(self);
        }
        Bytes(self.0.clone())
    }

    fn same(&self, other: &Self) -> (same: bool) {
        proof {
            use_type_invariant(self);
            use_type_invariant(other);
            text::lemma_canonical(self.0@);
            text::lemma_canonical(other.0@);
        }
        same_text(self.0.as_str(), other.0.as_str())
    }
}

impl Clone for Bytes {
    fn clone(&self) -> (other: Self)
        ensures
            other@ == self@,
    {
        self.copy()
    }
}

impl From<u64> for Bytes {
    fn from(value: u64) -> (bytes: Self)
        ensures
            bytes@ == value,
    {
        Bytes::of(value as u128)
    }
}

impl vstd::std_specs::convert::FromSpecImpl<u64> for Bytes {
    open spec fn obeys_from_spec() -> bool {
        false
    }

    open spec fn from_spec(value: u64) -> Self {
        arbitrary()
    }
}

impl From<u128> for Bytes {
    fn from(value: u128) -> (bytes: Self)
        ensures
            bytes@ == value,
    {
        Bytes::of(value)
    }
}

impl vstd::std_specs::convert::FromSpecImpl<u128> for Bytes {
    open spec fn obeys_from_spec() -> bool {
        false
    }

    open spec fn from_spec(value: u128) -> Self {
        arbitrary()
    }
}


/// Why a measurement is not complete, in the order in which reasons are listed.
#[derive(Debug, Clone, Copy, PartialEq, Eq, PartialOrd, Ord, Structural)]
pub enum Reason {
    Scanning,
    ReadError,
    Cancelled,
    Unsupported,
    ChangedDuringScan,
    Overflow,
    ResourceLimit,
    ExcludedByPolicy,
}

impl Reason {
    /// The place of a reason in the order.
    pub open spec fn rank(self) -> int {
        match self {
            Reason::Scanning => 0,
            Reason::ReadError => 1,
            Reason::Cancelled => 2,
            Reason::Unsupported => 3,
            Reason::ChangedDuringScan => 4,
            Reason::Overflow => 5,
            Reason::ResourceLimit => 6,
            Reason::ExcludedByPolicy => 7,
        }
    }

    /// The place of a reason in the order.
    pub fn place(self) -> (place: u8)
        ensures
            place == self.rank(),
    {
        match self {
            Reason::Scanning => 0,
            Reason::ReadError => 1,
            Reason::Cancelled => 2,
            Reason::Unsupported => 3,
            Reason::ChangedDuringScan => 4,
            Reason::Overflow => 5,
            Reason::ResourceLimit => 6,
            Reason::ExcludedByPolicy => 7,
        }
    }
}

/// What an entry is.
#[derive(Debug, Clone, Copy, PartialEq, Eq, Structural)]
pub enum Kind {
    Directory,
    RegularFile,
    Symlink,
    Other,
    Unknown,
}

/// A platform's own kind of entry.
#[derive(Debug, Clone, Copy, PartialEq, Eq, Structural)]
pub enum SpecialType {
    Ordinary,
    MacAlias,
    MacPackage,
    LinuxDesktopEntry,
    Other,
}

/// Where the entries come from.
#[derive(Debug, Clone, Copy, PartialEq, Eq, Structural)]
pub enum Platform {
    Macos,
    Linux,
    Fixture,
}

/// Whether an index still takes new directories.
#[derive(Debug, Clone, Copy, PartialEq, Eq, Structural)]
pub enum CapacityState {
    Available,
    Limited,
}

/// How far a piece of work has come.
#[derive(Debug, Clone, Copy, PartialEq, Eq, Structural)]
pub enum Phase {
    Queued,
    Running,
    Completed,
    Failed,
    Cancelled,
}

/// What a piece of work does.
#[derive(Debug, Clone, Copy, PartialEq, Eq, Structural)]
pub enum Operation {
    ListDirectories,
    ListFiles,
    ScanUsage,
}

/// What a piece of work waits for.
#[derive(Debug, Clone, Copy, PartialEq, Eq, Structural)]
pub enum WaitReason {
    Draining,
    Slot,
    PageDemand,
}

/// How much an issue affects.
#[derive(Debug, Clone, Copy, PartialEq, Eq, Structural)]
pub enum IssueScope {
    Root,
    Entry,
    Subtree,
}

/// How far the measurement of a directory has come.
#[derive(Debug, Clone, Copy, PartialEq, Eq, Structural)]
pub enum ScanState {
    NotRequested,
    Queued,
    Running,
    Settled,
    Failed,
    Cancelled,
}

/// Whether links are followed.
#[derive(Debug, Clone, Copy, PartialEq, Eq, Structural)]
pub enum FollowPolicy {
    Never,
}

/// Which entries a listing holds.
#[derive(Debug, Clone, Copy, PartialEq, Eq, Structural)]
pub enum Category {
    Directories,
    Files,
}

/// Whether a listing holds all entries.
#[derive(Debug, Clone, Copy, PartialEq, Eq, Structural)]
pub enum Coverage {
    Complete,
    Partial,
}

/// What a notification announces.
#[derive(Debug, Clone, Copy, PartialEq, Eq, Structural)]
pub enum EventKind {
    Progress,
    UsageChanged,
    ListingAvailable,
    Terminal,
}

impl View for SpecialType {
    type V = SpecialType;

    open spec fn view(&self) -> SpecialType {
        *self
    }
}

impl Value for SpecialType {
    fn copy(&self) -> Self {
        *self
    }

    fn same(&self, other: &Self) -> bool {
        *self == *other
    }
}

impl Phase {
    /// Completed, failed or cancelled.
    pub open spec fn is_terminal(self) -> bool {
        self is Completed || self is Failed || self is Cancelled
    }

    /// Whether the work is over.
    pub fn terminal(self) -> (over: bool)
        ensures
            over == self.is_terminal(),
    {
        matches!(self, Phase::Completed | Phase::Failed | Phase::Cancelled)
    }
}

/// One thing that went wrong.
#[derive(Debug, PartialEq, Eq)]
pub struct FsIssue {
    pub code: String,
    pub operation: String,
    pub scope: IssueScope,
    pub entry_id: Option<String>,
    pub native_code: Option<i32>,
}

/// What an issue says.
pub struct IssueView {
    pub code: Seq<char>,
    pub operation: Seq<char>,
    pub scope: IssueScope,
    pub entry_id: Option<Seq<char>>,
    pub native_code: Option<i32>,
}

impl View for FsIssue {
    type V = IssueView;

    open spec fn view(&self) -> IssueView {
        IssueView {
            code: self.code@,
            operation: self.operation@,
            scope: self.scope,
            entry_id: text::optional_text(self.entry_id),
            native_code: self.native_code,
        }
    }
}

impl Value for FsIssue {
    fn copy(&self) -> (other: Self) {
        FsIssue {
            code: self.code.clone(),
            operation: self.operation.clone(),
            scope: self.scope,
            entry_id: copy_optional(&self.entry_id),
            native_code: self.native_code,
        }
    }

    fn same(&self, other: &Self) -> (same: bool) {
        same_text(self.code.as_str(), other.code.as_str()) && same_text(
            self.operation.as_str(),
            other.operation.as_str(),
        ) && self.scope == other.scope && same_optional(&self.entry_id, &other.entry_id)
            && same_native(self.native_code, other.native_code)
    }
}

impl Clone for FsIssue {
    fn clone(&self) -> (other: Self)
        ensures
            other@ == self@,
    {
        self.copy()
    }
}

/// A copy of an optional text.
pub fn copy_optional(text: &Option<String>) -> (other: Option<String>)
    ensures
        text::optional_text(other) == text::optional_text(*text),
        other is Some <==> text is Some,
{
    match text {
        Some(text) => Some(text.clone()),
        None => None,
    }
}

fn same_native(a: Option<i32>, b: Option<i32>) -> (same: bool)
    ensures
        same == (a == b),
{
    match (a, b) {
        (Some(a), Some(b)) => a == b,
        (None, None) => true,
        _ => false,
    }
}

/// A field of an entry, as far as it could be read.
#[derive(Debug, PartialEq, Eq)]
pub enum Field<T> {
    Known { value: T },
    Unknown,
    Unsupported,
    Error { issue: FsIssue },
}

/// What a field shows.
pub enum FieldView<T> {
    Known { value: T },
    Unknown,
    Unsupported,
    Error { issue: IssueView },
}

impl<T: View> View for Field<T> {
    type V = FieldView<T::V>;

    open spec fn view(&self) -> FieldView<T::V> {
        match self {
            Field::Known { value } => FieldView::Known { value: value@ },
            Field::Unknown => FieldView::Unknown,
            Field::Unsupported => FieldView::Unsupported,
            Field::Error { issue } => FieldView::Error { issue: issue@ },
        }
    }
}

impl<T: Value> Value for Field<T> {
    fn copy(&self) -> (other: Self) {
        match self {
            Field::Known { value } => Field::Known { value: value.copy() },
            Field::Unknown => Field::Unknown,
            Field::Unsupported => Field::Unsupported,
            Field::Error { issue } => Field::Error { issue: issue.copy() },
        }
    }

    fn same(&self, other: &Self) -> (same: bool) {
        match (self, other) {
            (Field::Known { value: a }, Field::Known { value: b }) => a.same(b),
            (Field::Unknown, Field::Unknown) => true,
            (Field::Unsupported, Field::Unsupported) => true,
            (Field::Error { issue: a }, Field::Error { issue: b }) => a.same(b),
            _ => false,
        }
    }
}

impl<T: Value> Clone for Field<T> {
    fn clone(&self) -> (other: Self)
        ensures
            other@ == self@,
    {
        self.copy()
    }
}

/// A number of bytes, as far as it could be measured.
#[derive(Debug, PartialEq, Eq)]
pub enum Measure {
    Unknown,
    Complete { bytes: Bytes },
    Partial { observed_bytes: Bytes, reasons: Vec<Reason> },
    Unavailable { reason: Reason },
}

/// What a measurement shows.
#[verifier::ext_equal]
pub enum MeasureView {
    Unknown,
    Complete { bytes: nat },
    Partial { observed_bytes: nat, reasons: Seq<Reason> },
    Unavailable { reason: Reason },
}

impl View for Measure {
    type V = MeasureView;

    open spec fn view(&self) -> MeasureView {
        match self {
            Measure::Unknown => MeasureView::Unknown,
            Measure::Complete { bytes } => MeasureView::Complete { bytes: bytes@ },
            Measure::Partial { observed_bytes, reasons } => MeasureView::Partial {
                observed_bytes: observed_bytes@,
                reasons: reasons@,
            },
            Measure::Unavailable { reason } => MeasureView::Unavailable { reason: *reason },
        }
    }
}

/// A copy of a list of reasons.
pub fn copy_reasons(reasons: &Vec<Reason>) -> (other: Vec<Reason>)
    ensures
        other@ == reasons@,
{
    let mut other: Vec<Reason> = Vec::new();
    let mut i: usize = 0;
    while i < reasons.len()
        invariant
            i <= reasons.len(),
            other@ == reasons@.take(i as int),
        decreases reasons.len() - i,
    {
        other.push(reasons[i]);
        i = i + 1;
        assert(reasons@.take(i as int) =~= reasons@.take(i - 1).push(reasons@[i - 1]));
    }
    assert(reasons@.take(i as int) =~= reasons@);
    other
}

fn same_reasons(a: &Vec<Reason>, b: &Vec<Reason>) -> (same: bool)
    ensures
        same == (a@ == b@),
{
    if a.len() != b.len() {
        return false;
    }
    let mut i: usize = 0;
    while i < a.len()
        invariant
            i <= a.len(),
            a.len() == b.len(),
            forall|j: int| 0 <= j < i ==> a@[j] == b@[j],
        decreases a.len() - i,
    {
        if a[i] != b[i] {
            return false;
        }
        i = i + 1;
    }
    assert(a@ =~= b@);
    true
}

impl Value for Measure {
    fn copy(&self) -> (other: Self) {
        match self {
            Measure::Unknown => Measure::Unknown,
            Measure::Complete { bytes } => Measure::Complete { bytes: bytes.copy() },
            Measure::Partial { observed_bytes, reasons } => Measure::Partial {
                observed_bytes: observed_bytes.copy(),
                reasons: copy_reasons(reasons),
            },
            Measure::Unavailable { reason } => Measure::Unavailable { reason: *reason },
        }
    }

    fn same(&self, other: &Self) -> (same: bool) {
        match (self, other) {
            (Measure::Unknown, Measure::Unknown) => true,
            (Measure::Complete { bytes: a }, Measure::Complete { bytes: b }) => a.same(b),
            (
                Measure::Partial { observed_bytes: a, reasons: c },
                Measure::Partial { observed_bytes: b, reasons: d },
            ) => a.same(b) && same_reasons(c, d),
            (Measure::Unavailable { reason: a }, Measure::Unavailable { reason: b }) => *a == *b,
            _ => false,
        }
    }
}

impl Clone for Measure {
    fn clone(&self) -> (other: Self)
        ensures
            other@ == self@,
    {
        self.copy()
    }
}

/// How often each code of an issue occurred.
#[derive(Debug, PartialEq, Eq)]
pub struct Counts {
    map: TextMap<Bytes>,
}

impl View for Counts {
    type V = Map<Seq<char>, nat>;

    closed spec fn view(&self) -> Map<Seq<char>, nat> {
        text_map::shown(self.map@)
    }
}

impl Counts {
    #[verifier::type_invariant]
    spec fn ordered(self) -> bool {
        self.map.wf()
    }

    /// The counts in the order of their codes.
    pub closed spec fn rows(&self) -> Seq<(Seq<char>, nat)> {
        text_map::shown_rows(self.map.rows())
    }

    /// No occurrences yet.
    pub fn new() -> (counts: Self)
        ensures
            counts@ == Map::<Seq<char>, nat>::empty(),
    {
        let counts = Counts { map: TextMap::new() };
        assert(counts.rows() =~= Seq::<(Seq<char>, nat)>::empty());
        counts
    }

    /// The number of codes that occurred.
    pub fn len(&self) -> (len: usize)
        ensures
            self@.dom().finite(),
            len == self@.len(),
            len == self.rows().len(),
            self.rows() == text_map::rows_of(self@),
            self@ == text_map::map_of(self.rows()),
            text_map::increasing(self.rows()),
    {
        proof {
            use_type_invariant(self);
            text_map::lemma_shown_rows(self.map.rows());
            text_map::lemma_map_of(self.rows());
            text_map::lemma_rows_unique(self.rows(), text_map::rows_of(self@));
        }
        self.map.len()
    }

    /// Whether no code occurred.
    pub fn is_empty(&self) -> (empty: bool)
        ensures
            empty == (self@ == Map::<Seq<char>, nat>::empty()),
    {
        let len: usize = self.len();
        proof {
            if len == 0 {
                assert(self.rows() =~= Seq::<(Seq<char>, nat)>::empty());
            }
        }
        len == 0
    }

    /// The occurrences of a code.
    pub fn get(&self, code: &str) -> (count: Option<&Bytes>)
        ensures
            count is Some <==> self@.contains_key(code@),
            count is Some ==> count->0@ == self@[code@],
    {
        proof {
            use_type_invariant(self);
            text_map::lemma_shown_rows(self.map.rows());
        }
        self.map.get(code)
    }

    /// Whether a code occurred.
    pub fn contains_key(&self, code: &str) -> (found: bool)
        ensures
            found == self@.contains_key(code@),
    {
        self.get(code).is_some()
    }

    /// The code of one row.
    pub fn code_at(&self, at: usize) -> (code: &String)
        requires
            at < self.rows().len(),
        ensures
            code@ == self.rows()[at as int].0,
    {
        self.map.key_at(at)
    }

    /// The occurrences of one row.
    pub fn count_at(&self, at: usize) -> (count: &Bytes)
        requires
            at < self.rows().len(),
        ensures
            count@ == self.rows()[at as int].1,
    {
        self.map.value_at(at)
    }

    /// Gives a code this number of occurrences.
    pub fn set(&mut self, code: String, count: Bytes)
        ensures
            final(self)@ == old(self)@.insert(code@, count@),
    {
        proof {
            use_type_invariant(&*self);
            text_map::lemma_shown_rows(self.map.rows());
        }
        let ghost before = self.map;
        let ghost name = code@;
        let ghost value = count@;
        let mut map: TextMap<Bytes> = TextMap::new();
        std::mem::swap(&mut map, &mut self.map);
        map.insert(code, count);
        self.map = map;
        proof {
            text_map::lemma_shown_rows(self.map.rows());
            let next = self@;
            assert(next =~= text_map::map_of(text_map::shown_rows(before.rows())).insert(name, value)) by {
                assert forall|k: Seq<char>| next.contains_key(k) implies next[k]
                    == text_map::map_of(text_map::shown_rows(before.rows())).insert(name, value)[k] by {
                    assert(text_map::map_of(self.map.rows()).contains_key(k));
                    if k != name {
                        assert(text_map::map_of(before.rows()).contains_key(k));
                    }
                }
            }
        }
    }
}

impl Value for Counts {
    fn copy(&self) -> (other: Self) {
        proof {
            use_type_invariant(self);
        }
        let mut map: TextMap<Bytes> = TextMap::new();
        let ghost rows = self.map.rows();
        let mut i: usize = 0;
        let len: usize = self.map.len();
        while i < len
            invariant
                i <= len,
                len == rows.len(),
                rows == self.map.rows(),
                text_map::increasing(rows),
                map.wf(),
                text_map::shown_rows(map.rows()) == text_map::shown_rows(rows).take(i as int),
            decreases len - i,
        {
            let ghost done = map.rows();
            let key = self.map.key_at(i).clone();
            let value = self.map.value_at(i).copy();
            proof {
                assert(text_map::shown_rows(done).len() == done.len());
                assert(text_map::shown_rows(rows).take(i as int).len() == i);
                assert forall|j: int| 0 <= j < done.len() implies text::text_before(
                    (#[trigger] done[j]).0,
                    key@,
                ) by {
                    assert(text_map::shown_rows(done)[j] == text_map::shown_rows(rows).take(i as int)[j]);
                    assert(rows[j].0 == done[j].0);
                    assert(rows[i as int].0 == key@);
                }
            }
            map.push_last(key, value);
            i = i + 1;
            assert(text_map::shown_rows(done) == text_map::shown_rows(rows).take(i - 1));
            assert(text_map::shown_rows(map.rows()) =~= text_map::shown_rows(done).push((key@, value@)));
            assert(text_map::shown_rows(rows).take(i as int) =~= text_map::shown_rows(rows).take(i - 1).push(
                text_map::shown_rows(rows)[i - 1],
            ));
        }
        assert(text_map::shown_rows(rows).take(len as int) =~= text_map::shown_rows(rows));
        proof {
            text_map::lemma_shown_rows(rows);
            text_map::lemma_shown_rows(map.rows());
        }
        Counts { map }
    }

    fn same(&self, other: &Self) -> (same: bool) {
        let len: usize = self.len();
        if len != other.len() {
            return false;
        }
        let mut i: usize = 0;
        while i < len
            invariant
                i <= len,
                len == self.rows().len(),
                len == other.rows().len(),
                self.rows() == text_map::rows_of(self@),
                other.rows() == text_map::rows_of(other@),
                self@ == text_map::map_of(self.rows()),
                other@ == text_map::map_of(other.rows()),
                forall|j: int| 0 <= j < i ==> self.rows()[j] == other.rows()[j],
            decreases len - i,
        {
            if !same_text(self.code_at(i).as_str(), other.code_at(i).as_str()) || !self.count_at(
                i,
            ).same(other.count_at(i)) {
                return false;
            }
            i = i + 1;
        }
        assert(self.rows() =~= other.rows());
        true
    }
}

impl Clone for Counts {
    fn clone(&self) -> (other: Self)
        ensures
            other@ == self@,
    {
        self.copy()
    }
}

/// The codes that the protocol knows.
pub open spec fn recognised(code: Seq<char>) -> bool {
    ||| code == "PERMISSION_DENIED"@
    ||| code == "NOT_FOUND"@
    ||| code == "IO_ERROR"@
    ||| code == "NOT_DIRECTORY"@
    ||| code == "RESOURCE_LIMIT"@
    ||| code == "INTERNAL"@
    ||| code == "INVALID_ARGUMENT"@
    ||| code == "ENTRY_CHANGED"@
}

/// The code under which an issue is counted. Codes outside the protocol share one count, so that
/// no source of issues can grow the counts without bound.
pub open spec fn counted_as(code: Seq<char>) -> Seq<char> {
    if recognised(code) {
        code
    } else {
        "INTERNAL"@
    }
}

fn counting_code(code: &str) -> (counted: String)
    ensures
        counted@ == counted_as(code@),
{
    if same_text(code, "PERMISSION_DENIED") || same_text(code, "NOT_FOUND") || same_text(
        code,
        "IO_ERROR",
    ) || same_text(code, "NOT_DIRECTORY") || same_text(code, "RESOURCE_LIMIT") || same_text(
        code,
        "INTERNAL",
    ) || same_text(code, "INVALID_ARGUMENT") || same_text(code, "ENTRY_CHANGED") {
        code.to_owned()
    } else {
        "INTERNAL".to_owned()
    }
}

/// The most samples that are kept beside the counts.
pub const MAX_SAMPLES: usize = 32;

/// The issues of one piece of work: exact counts and a few samples.
#[derive(Debug, PartialEq, Eq)]
pub struct Issues {
    pub counts: Counts,
    pub samples: Vec<FsIssue>,
}

/// What the issues of one piece of work say.
#[verifier::ext_equal]
pub struct IssuesView {
    pub counts: Map<Seq<char>, nat>,
    pub samples: Seq<IssueView>,
}

/// The contents of a list, each by what it shows.
pub open spec fn views<T: View>(items: Seq<T>) -> Seq<T::V> {
    Seq::new(items.len(), |i: int| items[i]@)
}

impl View for Issues {
    type V = IssuesView;

    open spec fn view(&self) -> IssuesView {
        IssuesView { counts: self.counts@, samples: views(self.samples@) }
    }
}

impl IssuesView {
    /// No issues.
    pub open spec fn none() -> IssuesView {
        IssuesView { counts: Map::empty(), samples: Seq::empty() }
    }

    /// How often issues with this code were counted; a count that 64 bits cannot hold starts
    /// over.
    pub open spec fn count(self, code: Seq<char>) -> nat {
        if self.counts.contains_key(code) && self.counts[code] <= u64::MAX {
            self.counts[code]
        } else {
            0
        }
    }

    /// The issues with one more.
    pub open spec fn with(self, issue: IssueView) -> IssuesView {
        let code = counted_as(issue.code);
        let count = self.count(code);
        IssuesView {
            counts: self.counts.insert(
                code,
                if count < u64::MAX {
                    count + 1
                } else {
                    u64::MAX as nat
                },
            ),
            samples: if self.samples.len() < MAX_SAMPLES {
                self.samples.push(issue)
            } else {
                self.samples
            },
        }
    }
}

/// A copy of a list, each item by its copy.
pub fn copy_all<T: Value>(items: &Vec<T>) -> (other: Vec<T>)
    ensures
        views(other@) == views(items@),
{
    let mut other: Vec<T> = Vec::new();
    let mut i: usize = 0;
    while i < items.len()
        invariant
            i <= items.len(),
            views(other@) =~= views(items@).take(i as int),
        decreases items.len() - i,
    {
        let ghost done = other@;
        assert(views(done).len() == done.len());
        let item = items[i].copy();
        other.push(item);
        i = i + 1;
        assert(views(other@) =~= views(done).push(item@));
        assert(views(items@).take(i as int) =~= views(items@).take(i - 1).push(views(items@)[i - 1]));
    }
    assert(views(items@).take(i as int) =~= views(items@));
    other
}

/// Whether two lists show the same.
pub fn same_all<T: Value>(a: &Vec<T>, b: &Vec<T>) -> (same: bool)
    ensures
        same == (views(a@) == views(b@)),
{
    assert(views(a@).len() == a@.len());
    assert(views(b@).len() == b@.len());
    if a.len() != b.len() {
        return false;
    }
    let mut i: usize = 0;
    while i < a.len()
        invariant
            i <= a.len(),
            a.len() == b.len(),
            forall|j: int| 0 <= j < i ==> #[trigger] views(a@)[j] == views(b@)[j],
        decreases a.len() - i,
    {
        if !a[i].same(&b[i]) {
            assert(views(a@)[i as int] != views(b@)[i as int]);
            return false;
        }
        i = i + 1;
    }
    assert(views(a@) =~= views(b@));
    true
}

impl Default for Issues {
    fn default() -> (issues: Self)
        ensures
            issues@ == IssuesView::none(),
    {
        let issues = Issues { counts: Counts::new(), samples: Vec::new() };
        assert(issues@ =~= IssuesView::none());
        issues
    }
}

impl Issues {
    /// Counts an issue and keeps it as a sample while there is room.
    pub fn record(&mut self, issue: FsIssue)
        ensures
            final(self)@ == old(self)@.with(issue@),
    {
        let ghost before = self@;
        let code = counting_code(issue.code.as_str());
        let prior: u64 = match self.counts.get(code.as_str()) {
            Some(count) => match count.to_u64() {
                Some(count) => count,
                None => 0,
            },
            None => 0,
        };
        let next: u64 = prior.saturating_add(1);
        self.counts.set(code, Bytes::of(next as u128));
        assert(views(self.samples@).len() == self.samples@.len());
        if self.samples.len() < MAX_SAMPLES {
            let ghost samples = self.samples@;
            self.samples.push(issue);
            assert(views(self.samples@) =~= views(samples).push(issue@));
        }
        assert(self@ =~= before.with(issue@));
    }
}

impl Value for Issues {
    fn copy(&self) -> (other: Self) {
        Issues { counts: self.counts.copy(), samples: copy_all(&self.samples) }
    }

    fn same(&self, other: &Self) -> (same: bool) {
        self.counts.same(&other.counts) && same_all(&self.samples, &other.samples)
    }
}

impl Clone for Issues {
    fn clone(&self) -> (other: Self)
        ensures
            other@ == self@,
    {
        self.copy()
    }
}

/// Recording keeps at most as many samples as there is room for, and loses no count: each
/// issue raises the count of its code by one.
pub proof fn samples_are_bounded_and_counts_are_exact(issues: IssuesView, issue: IssueView)
    requires
        issues.samples.len() <= MAX_SAMPLES,
        issues.count(counted_as(issue.code)) < u64::MAX,
    ensures
        issues.with(issue).samples.len() <= MAX_SAMPLES,
        issues.with(issue).count(counted_as(issue.code)) == issues.count(counted_as(issue.code))
            + 1,
        forall|code: Seq<char>|
            code != counted_as(issue.code) ==> #[trigger] issues.with(issue).count(code)
                == issues.count(code),
{
}

/// Whether each half of an index still takes new directories.
#[derive(Debug, Clone, Copy, PartialEq, Eq, Structural)]
pub struct Capacity {
    pub background: CapacityState,
    pub foreground: CapacityState,
}

/// The session of one chosen root.
#[derive(Debug, PartialEq, Eq)]
pub struct RootSession {
    pub session_id: String,
    pub generation: u64,
    pub root_entry_id: String,
    pub platform: Platform,
    pub capacity: Capacity,
}

/// What a session says.
#[verifier::ext_equal]
pub struct RootSessionView {
    pub session_id: Seq<char>,
    pub generation: u64,
    pub root_entry_id: Seq<char>,
    pub platform: Platform,
    pub capacity: Capacity,
}

impl View for RootSession {
    type V = RootSessionView;

    open spec fn view(&self) -> RootSessionView {
        RootSessionView {
            session_id: self.session_id@,
            generation: self.generation,
            root_entry_id: self.root_entry_id@,
            platform: self.platform,
            capacity: self.capacity,
        }
    }
}

impl Value for RootSession {
    fn copy(&self) -> (other: Self) {
        RootSession {
            session_id: self.session_id.clone(),
            generation: self.generation,
            root_entry_id: self.root_entry_id.clone(),
            platform: self.platform,
            capacity: self.capacity,
        }
    }

    fn same(&self, other: &Self) -> (same: bool) {
        same_text(self.session_id.as_str(), other.session_id.as_str())
            && self.generation == other.generation
            && same_text(self.root_entry_id.as_str(), other.root_entry_id.as_str())
            && self.platform == other.platform
            && self.capacity == other.capacity
    }
}

impl Clone for RootSession {
    fn clone(&self) -> (other: Self)
        ensures
            other@ == self@,
    {
        self.copy()
    }
}

/// One entry of a directory.
#[derive(Debug, PartialEq, Eq)]
pub struct Entry {
    pub entry_id: String,
    pub parent_id: Option<String>,
    pub display_name: String,
    pub kind: Kind,
    pub hidden: Field<bool>,
    pub special_type: Field<SpecialType>,
    pub modified_at: Field<String>,
    pub own_logical_bytes: Field<Bytes>,
    pub own_allocated_bytes: Field<Bytes>,
    pub observed_at: String,
    pub follow_policy: FollowPolicy,
}

/// What an entry shows.
#[verifier::ext_equal]
pub struct EntryView {
    pub entry_id: Seq<char>,
    pub parent_id: Option<Seq<char>>,
    pub display_name: Seq<char>,
    pub kind: Kind,
    pub hidden: FieldView<bool>,
    pub special_type: FieldView<SpecialType>,
    pub modified_at: FieldView<Seq<char>>,
    pub own_logical_bytes: FieldView<nat>,
    pub own_allocated_bytes: FieldView<nat>,
    pub observed_at: Seq<char>,
    pub follow_policy: FollowPolicy,
}

impl View for Entry {
    type V = EntryView;

    open spec fn view(&self) -> EntryView {
        EntryView {
            entry_id: self.entry_id@,
            parent_id: text::optional_text(self.parent_id),
            display_name: self.display_name@,
            kind: self.kind,
            hidden: self.hidden@,
            special_type: self.special_type@,
            modified_at: self.modified_at@,
            own_logical_bytes: self.own_logical_bytes@,
            own_allocated_bytes: self.own_allocated_bytes@,
            observed_at: self.observed_at@,
            follow_policy: self.follow_policy,
        }
    }
}

impl Value for Entry {
    fn copy(&self) -> (other: Self) {
        Entry {
            entry_id: self.entry_id.clone(),
            parent_id: copy_optional(&self.parent_id),
            display_name: self.display_name.clone(),
            kind: self.kind,
            hidden: self.hidden.copy(),
            special_type: self.special_type.copy(),
            modified_at: self.modified_at.copy(),
            own_logical_bytes: self.own_logical_bytes.copy(),
            own_allocated_bytes: self.own_allocated_bytes.copy(),
            observed_at: self.observed_at.clone(),
            follow_policy: self.follow_policy,
        }
    }

    fn same(&self, other: &Self) -> (same: bool) {
        same_text(self.entry_id.as_str(), other.entry_id.as_str())
            && same_optional(&self.parent_id, &other.parent_id)
            && same_text(self.display_name.as_str(), other.display_name.as_str())
            && self.kind == other.kind
            && self.hidden.same(&other.hidden)
            && self.special_type.same(&other.special_type)
            && self.modified_at.same(&other.modified_at)
            && self.own_logical_bytes.same(&other.own_logical_bytes)
            && self.own_allocated_bytes.same(&other.own_allocated_bytes)
            && same_text(self.observed_at.as_str(), other.observed_at.as_str())
            && self.follow_policy == other.follow_policy
    }
}

impl Clone for Entry {
    fn clone(&self) -> (other: Self)
        ensures
            other@ == self@,
    {
        self.copy()
    }
}

/// A session with the entry of its root.
#[derive(Debug, PartialEq, Eq)]
pub struct RootData {
    pub session: RootSession,
    pub root: Entry,
}

/// What a root shows.
#[verifier::ext_equal]
pub struct RootDataView {
    pub session: RootSessionView,
    pub root: EntryView,
}

impl View for RootData {
    type V = RootDataView;

    open spec fn view(&self) -> RootDataView {
        RootDataView {
            session: self.session@,
            root: self.root@,
        }
    }
}

impl Value for RootData {
    fn copy(&self) -> (other: Self) {
        RootData {
            session: self.session.copy(),
            root: self.root.copy(),
        }
    }

    fn same(&self, other: &Self) -> (same: bool) {
        self.session.same(&other.session)
            && self.root.same(&other.root)
    }
}

impl Clone for RootData {
    fn clone(&self) -> (other: Self)
        ensures
            other@ == self@,
    {
        self.copy()
    }
}

/// The published state of one piece of work.
#[derive(Debug, PartialEq, Eq)]
pub struct WorkRecord {
    pub session_id: String,
    pub generation: u64,
    pub task_id: String,
    pub operation: Operation,
    pub target_id: String,
    pub phase: Phase,
    pub wait_reason: Option<WaitReason>,
    pub sequence: u64,
    pub processed_entries: Bytes,
    pub processed_directories: Bytes,
    pub observed_at: String,
    pub issues: Issues,
}

/// What a work record says.
#[verifier::ext_equal]
pub struct WorkView {
    pub session_id: Seq<char>,
    pub generation: u64,
    pub task_id: Seq<char>,
    pub operation: Operation,
    pub target_id: Seq<char>,
    pub phase: Phase,
    pub wait_reason: Option<WaitReason>,
    pub sequence: u64,
    pub processed_entries: nat,
    pub processed_directories: nat,
    pub observed_at: Seq<char>,
    pub issues: IssuesView,
}

impl View for WorkRecord {
    type V = WorkView;

    open spec fn view(&self) -> WorkView {
        WorkView {
            session_id: self.session_id@,
            generation: self.generation,
            task_id: self.task_id@,
            operation: self.operation,
            target_id: self.target_id@,
            phase: self.phase,
            wait_reason: self.wait_reason,
            sequence: self.sequence,
            processed_entries: self.processed_entries@,
            processed_directories: self.processed_directories@,
            observed_at: self.observed_at@,
            issues: self.issues@,
        }
    }
}

impl Value for WorkRecord {
    fn copy(&self) -> (other: Self) {
        WorkRecord {
            session_id: self.session_id.clone(),
            generation: self.generation,
            task_id: self.task_id.clone(),
            operation: self.operation,
            target_id: self.target_id.clone(),
            phase: self.phase,
            wait_reason: self.wait_reason,
            sequence: self.sequence,
            processed_entries: self.processed_entries.copy(),
            processed_directories: self.processed_directories.copy(),
            observed_at: self.observed_at.clone(),
            issues: self.issues.copy(),
        }
    }

    fn same(&self, other: &Self) -> (same: bool) {
        same_text(self.session_id.as_str(), other.session_id.as_str())
            && self.generation == other.generation
            && same_text(self.task_id.as_str(), other.task_id.as_str())
            && self.operation == other.operation
            && same_text(self.target_id.as_str(), other.target_id.as_str())
            && self.phase == other.phase
            && same_wait(self.wait_reason, other.wait_reason)
            && self.sequence == other.sequence
            && self.processed_entries.same(&other.processed_entries)
            && self.processed_directories.same(&other.processed_directories)
            && same_text(self.observed_at.as_str(), other.observed_at.as_str())
            && self.issues.same(&other.issues)
    }
}

impl Clone for WorkRecord {
    fn clone(&self) -> (other: Self)
        ensures
            other@ == self@,
    {
        self.copy()
    }
}

/// Whether two pieces of work wait for the same.
pub fn same_wait(a: Option<WaitReason>, b: Option<WaitReason>) -> (same: bool)
    ensures
        same == (a == b),
{
    match (a, b) {
        (Some(a), Some(b)) => a == b,
        (None, None) => true,
        _ => false,
    }
}

/// The measured usage of one directory.
#[derive(Debug, PartialEq, Eq)]
pub struct DirectoryUsage {
    pub directory_id: String,
    pub usage_revision: u64,
    pub scan_state: ScanState,
    pub logical: Measure,
    pub allocated: Measure,
    pub observed_at: String,
}

/// What a measured usage says.
#[verifier::ext_equal]
pub struct UsageView {
    pub directory_id: Seq<char>,
    pub usage_revision: u64,
    pub scan_state: ScanState,
    pub logical: MeasureView,
    pub allocated: MeasureView,
    pub observed_at: Seq<char>,
}

impl View for DirectoryUsage {
    type V = UsageView;

    open spec fn view(&self) -> UsageView {
        UsageView {
            directory_id: self.directory_id@,
            usage_revision: self.usage_revision,
            scan_state: self.scan_state,
            logical: self.logical@,
            allocated: self.allocated@,
            observed_at: self.observed_at@,
        }
    }
}

impl Value for DirectoryUsage {
    fn copy(&self) -> (other: Self) {
        DirectoryUsage {
            directory_id: self.directory_id.clone(),
            usage_revision: self.usage_revision,
            scan_state: self.scan_state,
            logical: self.logical.copy(),
            allocated: self.allocated.copy(),
            observed_at: self.observed_at.clone(),
        }
    }

    fn same(&self, other: &Self) -> (same: bool) {
        same_text(self.directory_id.as_str(), other.directory_id.as_str())
            && self.usage_revision == other.usage_revision
            && self.scan_state == other.scan_state
            && self.logical.same(&other.logical)
            && self.allocated.same(&other.allocated)
            && same_text(self.observed_at.as_str(), other.observed_at.as_str())
    }
}

impl Clone for DirectoryUsage {
    fn clone(&self) -> (other: Self)
        ensures
            other@ == self@,
    {
        self.copy()
    }
}

/// One page of a listing.
#[derive(Debug, PartialEq, Eq)]
pub struct ListingPage {
    pub work: WorkRecord,
    pub listing_revision: String,
    pub directory_id: String,
    pub category: Category,
    pub entries: Vec<Entry>,
    pub cursor: Option<String>,
    pub next_cursor: Option<String>,
    pub coverage: Coverage,
    pub issues: Issues,
}

/// What a page shows.
#[verifier::ext_equal]
pub struct PageView {
    pub work: WorkView,
    pub listing_revision: Seq<char>,
    pub directory_id: Seq<char>,
    pub category: Category,
    pub entries: Seq<EntryView>,
    pub cursor: Option<Seq<char>>,
    pub next_cursor: Option<Seq<char>>,
    pub coverage: Coverage,
    pub issues: IssuesView,
}

impl View for ListingPage {
    type V = PageView;

    open spec fn view(&self) -> PageView {
        PageView {
            work: self.work@,
            listing_revision: self.listing_revision@,
            directory_id: self.directory_id@,
            category: self.category,
            entries: views(self.entries@),
            cursor: text::optional_text(self.cursor),
            next_cursor: text::optional_text(self.next_cursor),
            coverage: self.coverage,
            issues: self.issues@,
        }
    }
}

impl Value for ListingPage {
    fn copy(&self) -> (other: Self) {
        ListingPage {
            work: self.work.copy(),
            listing_revision: self.listing_revision.clone(),
            directory_id: self.directory_id.clone(),
            category: self.category,
            entries: copy_all(&self.entries),
            cursor: copy_optional(&self.cursor),
            next_cursor: copy_optional(&self.next_cursor),
            coverage: self.coverage,
            issues: self.issues.copy(),
        }
    }

    fn same(&self, other: &Self) -> (same: bool) {
        self.work.same(&other.work)
            && same_text(self.listing_revision.as_str(), other.listing_revision.as_str())
            && same_text(self.directory_id.as_str(), other.directory_id.as_str())
            && self.category == other.category
            && same_all(&self.entries, &other.entries)
            && same_optional(&self.cursor, &other.cursor)
            && same_optional(&self.next_cursor, &other.next_cursor)
            && self.coverage == other.coverage
            && self.issues.same(&other.issues)
    }
}

impl Clone for ListingPage {
    fn clone(&self) -> (other: Self)
        ensures
            other@ == self@,
    {
        self.copy()
    }
}

/// A notification that a piece of work has changed.
#[derive(Debug, PartialEq, Eq)]
pub struct WorkEvent {
    pub protocol_version: u32,
    pub session_id: String,
    pub generation: u64,
    pub task_id: String,
    pub sequence: u64,
    pub kind: EventKind,
    pub observed_at: String,
}

/// What a notification says.
#[verifier::ext_equal]
pub struct EventView {
    pub protocol_version: u32,
    pub session_id: Seq<char>,
    pub generation: u64,
    pub task_id: Seq<char>,
    pub sequence: u64,
    pub kind: EventKind,
    pub observed_at: Seq<char>,
}

impl View for WorkEvent {
    type V = EventView;

    open spec fn view(&self) -> EventView {
        EventView {
            protocol_version: self.protocol_version,
            session_id: self.session_id@,
            generation: self.generation,
            task_id: self.task_id@,
            sequence: self.sequence,
            kind: self.kind,
            observed_at: self.observed_at@,
        }
    }
}

impl Value for WorkEvent {
    fn copy(&self) -> (other: Self) {
        WorkEvent {
            protocol_version: self.protocol_version,
            session_id: self.session_id.clone(),
            generation: self.generation,
            task_id: self.task_id.clone(),
            sequence: self.sequence,
            kind: self.kind,
            observed_at: self.observed_at.clone(),
        }
    }

    fn same(&self, other: &Self) -> (same: bool) {
        self.protocol_version == other.protocol_version
            && same_text(self.session_id.as_str(), other.session_id.as_str())
            && self.generation == other.generation
            && same_text(self.task_id.as_str(), other.task_id.as_str())
            && self.sequence == other.sequence
            && self.kind == other.kind
            && same_text(self.observed_at.as_str(), other.observed_at.as_str())
    }
}

impl Clone for WorkEvent {
    fn clone(&self) -> (other: Self)
        ensures
            other@ == self@,
    {
        self.copy()
    }
}

} // verus!
