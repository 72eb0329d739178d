//! Local cleanup receipts.
//!
//! Every deletion session is an append-only file of JSON lines under
//! `~/.cachereaper`; history never implies undo. A receipt starts with a header,
//! has an item for each attempt, and ends with a summary. One that was cut short
//! has no summary and is not complete. Files from before there were receipts hold
//! bare lines and are read as well.
use vstd::prelude::*;

use crate::json::{
    bool_member, double_member, fields, get_bool, get_double, get_optional_integer,
    get_optional_unsigned, get_text, get_text_or_empty, get_unsigned, has_member, member,
    json_text, one_line, optional_integer, optional_unsigned, parse_json, parsed_json, reads_back,
    text_member, text_or_empty, thousandfold, thousandfold_of, unsigned_member, write_json,
    written_fields, written_member, JsonField, JsonFieldView, JsonLine, JsonLineView, Written,
    WrittenField, WrittenView,
};
use crate::order::{
    lemma_text_total, lemma_text_transitive, stable_order, stable_sort, text_before, text_le,
    Ranked,
};
use crate::path::{child_path, FsPath};
use crate::text::{
    blank, chars_of, decimal, decimal_of, ends_with, is_blank, lemma_line_length_is, lines, lines_of, starts_with, text_between, texts, unsigned,
    unsigned_of, words, words_of,
};

verus! {

pub const RECEIPT_SCHEMA: u32 = 1;

/// The first line of a receipt.
#[derive(Debug)]
pub struct ReceiptHeader {
    pub schema: u32,
    pub kind: String,
    pub receipt_id: String,
    pub started_at: u128,
    pub root: String,
    pub estimated_bytes: u64,
    pub free_before: Option<u64>,
}

/// One attempt at a deletion.
#[derive(Debug)]
pub struct ReceiptItem {
    pub schema: u32,
    pub kind: String,
    pub path: String,
    pub rule: String,
    pub tier: String,
    pub label: String,
    pub regen: String,
    pub estimated_bytes: u64,
    pub status: String,
    pub reason: String,
}

/// The last line of a receipt.
#[derive(Debug)]
pub struct ReceiptSummary {
    pub schema: u32,
    pub kind: String,
    pub finished_at: u128,
    pub removed_count: usize,
    pub skipped_count: usize,
    pub estimated_removed_bytes: u64,
    pub free_after: Option<u64>,
    pub signed_free_space_change: Option<i128>,
    pub complete: bool,
}

/// What a receipt file holds.
#[derive(Debug)]
pub struct Receipt {
    pub receipt_id: String,
    pub started_at: u128,
    pub root: String,
    pub estimated_bytes: u64,
    pub free_before: Option<u64>,
    pub items: Vec<ReceiptItem>,
    pub summary: Option<ReceiptSummary>,
    pub complete: bool,
    pub legacy: bool,
    pub parse_warning: Option<String>,
    pub file_name: String,
}

/// What a [`ReceiptHeader`] says.
pub struct HeaderView {
    pub schema: u32,
    pub kind: Seq<char>,
    pub receipt_id: Seq<char>,
    pub started_at: u128,
    pub root: Seq<char>,
    pub estimated_bytes: u64,
    pub free_before: Option<u64>,
}

/// What a [`ReceiptItem`] says.
pub struct ItemView {
    pub schema: u32,
    pub kind: Seq<char>,
    pub path: Seq<char>,
    pub rule: Seq<char>,
    pub tier: Seq<char>,
    pub label: Seq<char>,
    pub regen: Seq<char>,
    pub estimated_bytes: u64,
    pub status: Seq<char>,
    pub reason: Seq<char>,
}

/// What a [`ReceiptSummary`] says.
pub struct SummaryView {
    pub schema: u32,
    pub kind: Seq<char>,
    pub finished_at: u128,
    pub removed_count: usize,
    pub skipped_count: usize,
    pub estimated_removed_bytes: u64,
    pub free_after: Option<u64>,
    pub signed_free_space_change: Option<i128>,
    pub complete: bool,
}

/// What a [`Receipt`] says.
pub struct ReceiptView {
    pub receipt_id: Seq<char>,
    pub started_at: u128,
    pub root: Seq<char>,
    pub estimated_bytes: u64,
    pub free_before: Option<u64>,
    pub items: Seq<ItemView>,
    pub summary: Option<SummaryView>,
    pub complete: bool,
    pub legacy: bool,
    pub parse_warning: Option<Seq<char>>,
    pub file_name: Seq<char>,
}

impl View for ReceiptHeader {
    type V = HeaderView;

    open spec fn view(&self) -> HeaderView {
        HeaderView {
            schema: self.schema,
            kind: self.kind@,
            receipt_id: self.receipt_id@,
            started_at: self.started_at,
            root: self.root@,
            estimated_bytes: self.estimated_bytes,
            free_before: self.free_before,
        }
    }
}

impl View for ReceiptItem {
    type V = ItemView;

    open spec fn view(&self) -> ItemView {
        ItemView {
            schema: self.schema,
            kind: self.kind@,
            path: self.path@,
            rule: self.rule@,
            tier: self.tier@,
            label: self.label@,
            regen: self.regen@,
            estimated_bytes: self.estimated_bytes,
            status: self.status@,
            reason: self.reason@,
        }
    }
}

impl View for ReceiptSummary {
    type V = SummaryView;

    open spec fn view(&self) -> SummaryView {
        SummaryView {
            schema: self.schema,
            kind: self.kind@,
            finished_at: self.finished_at,
            removed_count: self.removed_count,
            skipped_count: self.skipped_count,
            estimated_removed_bytes: self.estimated_removed_bytes,
            free_after: self.free_after,
            signed_free_space_change: self.signed_free_space_change,
            complete: self.complete,
        }
    }
}

/// What a list of items says.
pub open spec fn item_views(items: Seq<ReceiptItem>) -> Seq<ItemView> {
    items.map_values(|item: ReceiptItem| item@)
}

impl View for Receipt {
    type V = ReceiptView;

    open spec fn view(&self) -> ReceiptView {
        ReceiptView {
            receipt_id: self.receipt_id@,
            started_at: self.started_at,
            root: self.root@,
            estimated_bytes: self.estimated_bytes,
            free_before: self.free_before,
            items: item_views(self.items@),
            summary: match self.summary {
                Some(summary) => Some(summary@),
                None => None,
            },
            complete: self.complete,
            legacy: self.legacy,
            parse_warning: match self.parse_warning {
                Some(text) => Some(text@),
                None => None,
            },
            file_name: self.file_name@,
        }
    }
}

impl Clone for ReceiptItem {
    fn clone(&self) -> (r: Self)
        ensures
            r@ == self@,
    {
        ReceiptItem {
            schema: self.schema,
            kind: self.kind.clone(),
            path: self.path.clone(),
            rule: self.rule.clone(),
            tier: self.tier.clone(),
            label: self.label.clone(),
            regen: self.regen.clone(),
            estimated_bytes: self.estimated_bytes,
            status: self.status.clone(),
            reason: self.reason.clone(),
        }
    }
}

impl Clone for ReceiptSummary {
    fn clone(&self) -> (r: Self)
        ensures
            r@ == self@,
    {
        ReceiptSummary {
            schema: self.schema,
            kind: self.kind.clone(),
            finished_at: self.finished_at,
            removed_count: self.removed_count,
            skipped_count: self.skipped_count,
            estimated_removed_bytes: self.estimated_removed_bytes,
            free_after: self.free_after,
            signed_free_space_change: self.signed_free_space_change,
            complete: self.complete,
        }
    }
}

/// A copy of a list of items.
fn copy_items(items: &Vec<ReceiptItem>) -> (r: Vec<ReceiptItem>)
    ensures
        item_views(r@) == item_views(items@),
{
    let mut out: Vec<ReceiptItem> = Vec::new();
    let mut i: usize = 0;
    while i < items.len()
        invariant
            i <= items.len(),
            item_views(out@) == item_views(items@).take(i as int),
        decreases items.len() - i,
    {
        let ghost before = out@;
        out.push(items[i].clone());
        assert(item_views(out@) =~= item_views(before).push(items@[i as int]@));
        assert(item_views(items@).take(i + 1) =~= item_views(items@).take(i as int).push(
            items@[i as int]@,
        ));
        i += 1;
    }
    assert(item_views(out@) =~= item_views(items@));
    out
}

impl Clone for Receipt {
    fn clone(&self) -> (r: Self)
        ensures
            r@ == self@,
    {
        Receipt {
            receipt_id: self.receipt_id.clone(),
            started_at: self.started_at,
            root: self.root.clone(),
            estimated_bytes: self.estimated_bytes,
            free_before: self.free_before,
            items: copy_items(&self.items),
            summary: match &self.summary {
                Some(summary) => Some(summary.clone()),
                None => None,
            },
            complete: self.complete,
            legacy: self.legacy,
            parse_warning: match &self.parse_warning {
                Some(text) => Some(text.clone()),
                None => None,
            },
            file_name: self.file_name.clone(),
        }
    }
}

// ---------------------------------------------------------------------------
// One line
// ---------------------------------------------------------------------------

/// A member that fits into 32 bits.
pub open spec fn small_member(object: Seq<JsonFieldView>, key: Seq<char>) -> Option<u32> {
    match unsigned_member(object, key) {
        Some(n) => if n <= u32::MAX {
            Some(n as u32)
        } else {
            None
        },
        None => None,
    }
}

fn get_small(object: &Vec<JsonField>, key: &str) -> (r: Option<u32>)
    ensures
        r == small_member(fields(object@), key@),
{
    match get_unsigned(object, key) {
        Some(n) => if n <= 0xffff_ffff {
            Some(n as u32)
        } else {
            None
        },
        None => None,
    }
}

/// A member that fits into a machine word.
pub open spec fn count_member(object: Seq<JsonFieldView>, key: Seq<char>) -> Option<usize> {
    match unsigned_member(object, key) {
        Some(n) => if n <= usize::MAX {
            Some(n as usize)
        } else {
            None
        },
        None => None,
    }
}

fn get_count(object: &Vec<JsonField>, key: &str) -> (r: Option<usize>)
    ensures
        r == count_member(fields(object@), key@),
{
    match get_unsigned(object, key) {
        Some(n) => if n as u128 <= usize::MAX as u128 {
            Some(n as usize)
        } else {
            None
        },
        None => None,
    }
}

/// The header an object holds. Every member must be there and of its type; only
/// `free_before` may be left out. Other members do not matter.
pub open spec fn header_of(object: Seq<JsonFieldView>) -> Option<HeaderView> {
    match (
        small_member(object, "schema"@),
        text_member(object, "kind"@),
        text_member(object, "receipt_id"@),
        unsigned_member(object, "started_at"@),
        text_member(object, "root"@),
        unsigned_member(object, "estimated_bytes"@),
        optional_unsigned(object, "free_before"@),
    ) {
        (
            Some(schema),
            Some(kind),
            Some(receipt_id),
            Some(started_at),
            Some(root),
            Some(estimated_bytes),
            Some(free_before),
        ) => Some(
            HeaderView {
                schema,
                kind,
                receipt_id,
                started_at: started_at as u128,
                root,
                estimated_bytes,
                free_before,
            },
        ),
        _ => None,
    }
}

/// The header an object holds.
pub fn decode_header(object: &Vec<JsonField>) -> (r: Option<ReceiptHeader>)
    ensures
        (match r {
            Some(header) => header_of(fields(object@)) == Some(header@),
            None => header_of(fields(object@)) is None,
        }),
{
    match (
        get_small(object, "schema"),
        get_text(object, "kind"),
        get_text(object, "receipt_id"),
        get_unsigned(object, "started_at"),
        get_text(object, "root"),
        get_unsigned(object, "estimated_bytes"),
        get_optional_unsigned(object, "free_before"),
    ) {
        (
            Some(schema),
            Some(kind),
            Some(receipt_id),
            Some(started_at),
            Some(root),
            Some(estimated_bytes),
            Some(free_before),
        ) => Some(
            ReceiptHeader {
                schema,
                kind,
                receipt_id,
                started_at: started_at as u128,
                root,
                estimated_bytes,
                free_before,
            },
        ),
        _ => None,
    }
}

/// The item an object holds. Every member must be there and of its type.
pub open spec fn item_of(object: Seq<JsonFieldView>) -> Option<ItemView> {
    match (
        small_member(object, "schema"@),
        text_member(object, "kind"@),
        text_member(object, "path"@),
        text_member(object, "rule"@),
        text_member(object, "tier"@),
        text_member(object, "label"@),
        text_member(object, "regen"@),
        unsigned_member(object, "estimated_bytes"@),
        text_member(object, "status"@),
        text_member(object, "reason"@),
    ) {
        (
            Some(schema),
            Some(kind),
            Some(path),
            Some(rule),
            Some(tier),
            Some(label),
            Some(regen),
            Some(estimated_bytes),
            Some(status),
            Some(reason),
        ) => Some(
            ItemView {
                schema,
                kind,
                path,
                rule,
                tier,
                label,
                regen,
                estimated_bytes,
                status,
                reason,
            },
        ),
        _ => None,
    }
}

/// The item an object holds.
pub fn decode_item(object: &Vec<JsonField>) -> (r: Option<ReceiptItem>)
    ensures
        (match r {
            Some(item) => item_of(fields(object@)) == Some(item@),
            None => item_of(fields(object@)) is None,
        }),
{
    match (
        get_small(object, "schema"),
        get_text(object, "kind"),
        get_text(object, "path"),
        get_text(object, "rule"),
        get_text(object, "tier"),
        get_text(object, "label"),
        get_text(object, "regen"),
        get_unsigned(object, "estimated_bytes"),
        get_text(object, "status"),
        get_text(object, "reason"),
    ) {
        (
            Some(schema),
            Some(kind),
            Some(path),
            Some(rule),
            Some(tier),
            Some(label),
            Some(regen),
            Some(estimated_bytes),
            Some(status),
            Some(reason),
        ) => Some(
            ReceiptItem {
                schema,
                kind,
                path,
                rule,
                tier,
                label,
                regen,
                estimated_bytes,
                status,
                reason,
            },
        ),
        _ => None,
    }
}

/// The summary an object holds. Every member must be there and of its type; only
/// `free_after` and `signed_free_space_change` may be left out.
pub open spec fn summary_of(object: Seq<JsonFieldView>) -> Option<SummaryView> {
    match (
        small_member(object, "schema"@),
        text_member(object, "kind"@),
        unsigned_member(object, "finished_at"@),
        count_member(object, "removed_count"@),
        count_member(object, "skipped_count"@),
        unsigned_member(object, "estimated_removed_bytes"@),
        optional_unsigned(object, "free_after"@),
        optional_integer(object, "signed_free_space_change"@),
        bool_member(object, "complete"@),
    ) {
        (
            Some(schema),
            Some(kind),
            Some(finished_at),
            Some(removed_count),
            Some(skipped_count),
            Some(estimated_removed_bytes),
            Some(free_after),
            Some(signed_free_space_change),
            Some(complete),
        ) => Some(
            SummaryView {
                schema,
                kind,
                finished_at: finished_at as u128,
                removed_count,
                skipped_count,
                estimated_removed_bytes,
                free_after,
                signed_free_space_change,
                complete,
            },
        ),
        _ => None,
    }
}

/// The summary an object holds.
pub fn decode_summary(object: &Vec<JsonField>) -> (r: Option<ReceiptSummary>)
    ensures
        (match r {
            Some(summary) => summary_of(fields(object@)) == Some(summary@),
            None => summary_of(fields(object@)) is None,
        }),
{
    match (
        get_small(object, "schema"),
        get_text(object, "kind"),
        get_unsigned(object, "finished_at"),
        get_count(object, "removed_count"),
        get_count(object, "skipped_count"),
        get_unsigned(object, "estimated_removed_bytes"),
        get_optional_unsigned(object, "free_after"),
        get_optional_integer(object, "signed_free_space_change"),
        get_bool(object, "complete"),
    ) {
        (
            Some(schema),
            Some(kind),
            Some(finished_at),
            Some(removed_count),
            Some(skipped_count),
            Some(estimated_removed_bytes),
            Some(free_after),
            Some(signed_free_space_change),
            Some(complete),
        ) => Some(
            ReceiptSummary {
                schema,
                kind,
                finished_at: finished_at as u128,
                removed_count,
                skipped_count,
                estimated_removed_bytes,
                free_after,
                signed_free_space_change,
                complete,
            },
        ),
        _ => None,
    }
}

/// The item that a bare line stands for. Whatever is missing or of another type
/// is empty or zero.
pub open spec fn legacy_item(object: Seq<JsonFieldView>) -> ItemView {
    ItemView {
        schema: 0,
        kind: "item"@,
        path: text_or_empty(object, "path"@),
        rule: text_or_empty(object, "rule"@),
        tier: text_or_empty(object, "tier"@),
        label: Seq::empty(),
        regen: text_or_empty(object, "regen"@),
        estimated_bytes: match unsigned_member(object, "bytes"@) {
            Some(n) => n,
            None => 0,
        },
        status: "removed"@,
        reason: Seq::empty(),
    }
}

/// When a bare line was written, in milliseconds; its `ts` is in seconds.
pub open spec fn legacy_time(object: Seq<JsonFieldView>) -> nat {
    match double_member(object, "ts"@) {
        Some(bits) => thousandfold(bits),
        None => 0,
    }
}

/// What a line contributes to a receipt.
#[derive(Debug)]
pub enum ReceiptLine {
    Blank,
    Header(ReceiptHeader),
    Item(ReceiptItem),
    Summary(ReceiptSummary),
    /// A bare line: its item and its time.
    Legacy(ReceiptItem, u128),
    Malformed,
}

/// What a [`ReceiptLine`] says.
pub enum ReceiptLineView {
    Blank,
    Header(HeaderView),
    Item(ItemView),
    Summary(SummaryView),
    Legacy(ItemView, nat),
    Malformed,
}

impl View for ReceiptLine {
    type V = ReceiptLineView;

    open spec fn view(&self) -> ReceiptLineView {
        match self {
            ReceiptLine::Blank => ReceiptLineView::Blank,
            ReceiptLine::Header(header) => ReceiptLineView::Header(header@),
            ReceiptLine::Item(item) => ReceiptLineView::Item(item@),
            ReceiptLine::Summary(summary) => ReceiptLineView::Summary(summary@),
            ReceiptLine::Legacy(item, at) => ReceiptLineView::Legacy(item@, *at as nat),
            ReceiptLine::Malformed => ReceiptLineView::Malformed,
        }
    }
}

/// What a parsed line contributes.
pub open spec fn contribution(line: JsonLineView) -> ReceiptLineView {
    match line {
        JsonLineView::Object(object) => {
            let kind = text_member(object, "kind"@);
            if kind == Some("header"@) {
                match header_of(object) {
                    Some(header) => ReceiptLineView::Header(header),
                    None => ReceiptLineView::Malformed,
                }
            } else if kind == Some("item"@) {
                match item_of(object) {
                    Some(item) => ReceiptLineView::Item(item),
                    None => ReceiptLineView::Malformed,
                }
            } else if kind == Some("summary"@) {
                match summary_of(object) {
                    Some(summary) => ReceiptLineView::Summary(summary),
                    None => ReceiptLineView::Malformed,
                }
            } else if member(object, "path"@) is Some {
                ReceiptLineView::Legacy(legacy_item(object), legacy_time(object))
            } else {
                ReceiptLineView::Malformed
            }
        },
        _ => ReceiptLineView::Malformed,
    }
}

/// What a parsed line contributes.
pub fn receipt_line(line: &JsonLine) -> (r: ReceiptLine)
    ensures
        r@ == contribution(line@),
{
    let object = match line {
        JsonLine::Object(object) => object,
        _ => {
            return ReceiptLine::Malformed;
        },
    };
    let kind = match get_text(object, "kind") {
        Some(kind) => kind,
        None => String::new(),
    };
    let is_text = match get_text(object, "kind") {
        Some(_) => true,
        None => false,
    };
    proof {
        lemma_kinds_differ();
    }
    if is_text && *kind.as_str() == *"header" {
        match decode_header(object) {
            Some(header) => ReceiptLine::Header(header),
            None => ReceiptLine::Malformed,
        }
    } else if is_text && *kind.as_str() == *"item" {
        match decode_item(object) {
            Some(item) => ReceiptLine::Item(item),
            None => ReceiptLine::Malformed,
        }
    } else if is_text && *kind.as_str() == *"summary" {
        match decode_summary(object) {
            Some(summary) => ReceiptLine::Summary(summary),
            None => ReceiptLine::Malformed,
        }
    } else if has_member(object, "path") {
        let at: u128 = match get_double(object, "ts") {
            Some(bits) => thousandfold_of(bits),
            None => 0,
        };
        ReceiptLine::Legacy(
            ReceiptItem {
                schema: 0,
                kind: "item".to_string(),
                path: get_text_or_empty(object, "path"),
                rule: get_text_or_empty(object, "rule"),
                tier: get_text_or_empty(object, "tier"),
                label: String::new(),
                regen: get_text_or_empty(object, "regen"),
                estimated_bytes: match get_unsigned(object, "bytes") {
                    Some(n) => n,
                    None => 0,
                },
                status: "removed".to_string(),
                reason: String::new(),
            },
            at,
        )
    } else {
        ReceiptLine::Malformed
    }
}

/// What a line of text contributes.
pub open spec fn line_contribution(text: Seq<char>) -> ReceiptLineView {
    if blank(text) {
        ReceiptLineView::Blank
    } else {
        contribution(parsed_json(text))
    }
}

/// What a line of text contributes.
pub fn read_line(text: &str) -> (r: ReceiptLine)
    ensures
        r@ == line_contribution(text@),
{
    if is_blank(text) {
        ReceiptLine::Blank
    } else {
        receipt_line(&parse_json(text))
    }
}

// ---------------------------------------------------------------------------
// A whole receipt
// ---------------------------------------------------------------------------

/// What a list of lines says.
pub open spec fn line_views(list: Seq<ReceiptLine>) -> Seq<ReceiptLineView> {
    list.map_values(|line: ReceiptLine| line@)
}

/// The header among the lines: the last one, if there are several.
pub open spec fn last_header(list: Seq<ReceiptLineView>) -> Option<HeaderView>
    decreases list.len(),
{
    if list.len() == 0 {
        None
    } else {
        match list.last() {
            ReceiptLineView::Header(header) => Some(header),
            _ => last_header(list.drop_last()),
        }
    }
}

/// The summary among the lines: the last one, if there are several.
pub open spec fn last_summary(list: Seq<ReceiptLineView>) -> Option<SummaryView>
    decreases list.len(),
{
    if list.len() == 0 {
        None
    } else {
        match list.last() {
            ReceiptLineView::Summary(summary) => Some(summary),
            _ => last_summary(list.drop_last()),
        }
    }
}

/// The items among the lines, in order.
pub open spec fn line_items(list: Seq<ReceiptLineView>) -> Seq<ItemView>
    decreases list.len(),
{
    if list.len() == 0 {
        Seq::empty()
    } else {
        match list.last() {
            ReceiptLineView::Item(item) => line_items(list.drop_last()).push(item),
            ReceiptLineView::Legacy(item, _) => line_items(list.drop_last()).push(item),
            _ => line_items(list.drop_last()),
        }
    }
}

/// How many lines are malformed.
pub open spec fn malformed_lines(list: Seq<ReceiptLineView>) -> nat
    decreases list.len(),
{
    if list.len() == 0 {
        0
    } else {
        malformed_lines(list.drop_last()) + (if list.last() is Malformed {
            1nat
        } else {
            0
        })
    }
}

/// The latest time among bare lines.
pub open spec fn latest_legacy(list: Seq<ReceiptLineView>) -> nat
    decreases list.len(),
{
    if list.len() == 0 {
        0
    } else {
        let before = latest_legacy(list.drop_last());
        match list.last() {
            ReceiptLineView::Legacy(_, at) => if at > before {
                at
            } else {
                before
            },
            _ => before,
        }
    }
}

/// The bytes of all items together.
pub open spec fn item_bytes(items: Seq<ItemView>) -> nat
    decreases items.len(),
{
    if items.len() == 0 {
        0
    } else {
        item_bytes(items.drop_last()) + items.last().estimated_bytes as nat
    }
}

/// A file name without any `.jsonl` at its end.
pub open spec fn without_extension(name: Seq<char>) -> Seq<char>
    decreases name.len(),
{
    if name.len() >= 6 && ".jsonl"@.is_suffix_of(name) {
        without_extension(name.subrange(0, name.len() - 6))
    } else {
        name
    }
}

/// The note on malformed lines, if there were any.
pub open spec fn warning(malformed: nat) -> Option<Seq<char>> {
    if malformed > 0 {
        Some("ignored "@ + decimal(malformed) + " malformed lines"@)
    } else {
        None
    }
}

/// The receipt that lines amount to. Without a header they are read as a file of
/// bare lines; with nothing in it at all there is no receipt. The bytes of bare
/// lines are added up modulo 2^64.
pub open spec fn receipt_of(list: Seq<ReceiptLineView>, file_name: Seq<char>) -> Option<
    ReceiptView,
> {
    let items = line_items(list);
    let malformed = malformed_lines(list);
    match last_header(list) {
        Some(header) => Some(
            ReceiptView {
                receipt_id: header.receipt_id,
                started_at: header.started_at,
                root: header.root,
                estimated_bytes: header.estimated_bytes,
                free_before: header.free_before,
                items,
                summary: last_summary(list),
                complete: last_summary(list) matches Some(summary) && summary.complete,
                legacy: false,
                parse_warning: warning(malformed),
                file_name,
            },
        ),
        None => if items.len() == 0 && malformed == 0 {
            None
        } else {
            Some(
                ReceiptView {
                    receipt_id: without_extension(file_name),
                    started_at: latest_legacy(list) as u128,
                    root: Seq::empty(),
                    estimated_bytes: (item_bytes(items) % 0x1_0000_0000_0000_0000) as u64,
                    free_before: None,
                    items,
                    summary: None,
                    complete: malformed == 0,
                    legacy: true,
                    parse_warning: warning(malformed),
                    file_name,
                },
            )
        },
    }
}

/// The bytes of all items together, modulo 2^64.
fn sum_bytes(items: &Vec<ReceiptItem>) -> (r: u64)
    ensures
        r == item_bytes(item_views(items@)) % 0x1_0000_0000_0000_0000,
{
    let ghost all = item_views(items@);
    let mut sum: u64 = 0;
    let mut i: usize = 0;
    while i < items.len()
        invariant
            i <= items.len(),
            all == item_views(items@),
            sum == item_bytes(all.take(i as int)) % 0x1_0000_0000_0000_0000,
        decreases items.len() - i,
    {
        assert(all.take(i + 1).drop_last() =~= all.take(i as int));
        assert(all.take(i + 1).last() == items@[i as int]@);
        sum = sum.wrapping_add(items[i].estimated_bytes);
        i += 1;
    }
    assert(all.take(all.len() as int) =~= all);
    sum
}

/// A file name without any `.jsonl` at its end.
fn strip_extension(name: &str) -> (r: String)
    ensures
        r@ == without_extension(name@),
{
    let mut at = name.to_string();
    proof {
        reveal_strlit(".jsonl");
    }
    loop
        invariant
            without_extension(name@) == without_extension(at@),
            ".jsonl"@.len() == 6,
        decreases at@.len(),
    {
        if !ends_with(at.as_str(), ".jsonl") {
            return at;
        }
        let chars = chars_of(at.as_str());
        assert(chars@.len() >= 6);
        let shorter = text_between(&chars, 0, chars.len() - 6);
        at = shorter;
    }
}

/// The note on malformed lines, if there were any.
fn warning_of(malformed: usize) -> (r: Option<String>)
    ensures
        (match r {
            Some(text) => warning(malformed as nat) == Some(text@),
            None => warning(malformed as nat) is None,
        }),
{
    if malformed > 0 {
        let mut text = "ignored ".to_string();
        let count = decimal_of(malformed as u128);
        text.append(count.as_str());
        text.append(" malformed lines");
        Some(text)
    } else {
        None
    }
}

/// Put lines together to a receipt.
pub fn assemble(list: Vec<ReceiptLine>, file_name: &str) -> (r: Option<Receipt>)
    ensures
        (match r {
            Some(receipt) => receipt_of(line_views(list@), file_name@) == Some(receipt@),
            None => receipt_of(line_views(list@), file_name@) is None,
        }),
{
    let ghost all = line_views(list@);
    let mut header: Option<ReceiptHeader> = None;
    let mut items: Vec<ReceiptItem> = Vec::new();
    let mut summary: Option<ReceiptSummary> = None;
    let mut malformed: usize = 0;
    let mut legacy_started: u128 = 0;
    assert(all.len() == list.len());
    assert(item_views(items@) =~= line_items(all.take(0)));
    for line in it: list
        invariant
            all == line_views(it.seq()),
            all.len() <= usize::MAX,
            (match header {
                Some(h) => last_header(all.take(it.index() as int)) == Some(h@),
                None => last_header(all.take(it.index() as int)) is None,
            }),
            item_views(items@) == line_items(all.take(it.index() as int)),
            (match summary {
                Some(s) => last_summary(all.take(it.index() as int)) == Some(s@),
                None => last_summary(all.take(it.index() as int)) is None,
            }),
            malformed == malformed_lines(all.take(it.index() as int)),
            malformed <= it.index(),
            legacy_started == latest_legacy(all.take(it.index() as int)),
    {
        let ghost before_items = items@;
        proof {
            let n = it.index() as int;
            assert(line@ == all[n]);
            assert(all.take(n + 1).drop_last() =~= all.take(n));
            assert(all.take(n + 1).last() == all[n]);
        }
        match line {
            ReceiptLine::Blank => {},
            ReceiptLine::Header(h) => {
                header = Some(h);
            },
            ReceiptLine::Item(item) => {
                items.push(item);
                assert(item_views(items@) =~= item_views(before_items).push(item@));
            },
            ReceiptLine::Summary(s) => {
                summary = Some(s);
            },
            ReceiptLine::Legacy(item, at) => {
                items.push(item);
                assert(item_views(items@) =~= item_views(before_items).push(item@));
                if at > legacy_started {
                    legacy_started = at;
                }
            },
            ReceiptLine::Malformed => {
                malformed = malformed + 1;
            },
        }
    }
    assert(all.take(all.len() as int) =~= all);
    let parse_warning = warning_of(malformed);
    match header {
        Some(header) => {
            let complete = match &summary {
                Some(s) => s.complete,
                None => false,
            };
            Some(
                Receipt {
                    receipt_id: header.receipt_id,
                    started_at: header.started_at,
                    root: header.root,
                    estimated_bytes: header.estimated_bytes,
                    free_before: header.free_before,
                    items,
                    summary,
                    complete,
                    legacy: false,
                    parse_warning,
                    file_name: file_name.to_string(),
                },
            )
        },
        None => if items.len() == 0 && malformed == 0 {
            None
        } else {
            let estimated_bytes: u64 = sum_bytes(&items);
            Some(
                Receipt {
                    receipt_id: strip_extension(file_name),
                    started_at: legacy_started,
                    root: String::new(),
                    estimated_bytes,
                    free_before: None,
                    items,
                    summary: None,
                    complete: malformed == 0,
                    legacy: true,
                    parse_warning,
                    file_name: file_name.to_string(),
                },
            )
        },
    }
}

/// What the lines of a text contribute.
pub open spec fn contributions(list: Seq<Seq<char>>) -> Seq<ReceiptLineView> {
    list.map_values(|line: Seq<char>| line_contribution(line))
}

/// Read a receipt from the text of its file.
pub fn parse_receipt(text: &str, file_name: &str) -> (r: Option<Receipt>)
    ensures
        (match r {
            Some(receipt) => receipt_of(contributions(lines(text@)), file_name@) == Some(receipt@),
            None => receipt_of(contributions(lines(text@)), file_name@) is None,
        }),
{
    let all = lines_of(text);
    let ghost shown = contributions(lines(text@));
    let mut list: Vec<ReceiptLine> = Vec::new();
    let mut i: usize = 0;
    while i < all.len()
        invariant
            i <= all.len(),
            texts(all@) == lines(text@),
            shown == contributions(lines(text@)),
            line_views(list@) == shown.take(i as int),
        decreases all.len() - i,
    {
        let ghost before = list@;
        assert(lines(text@)[i as int] == all@[i as int]@);
        list.push(read_line(all[i].as_str()));
        assert(line_views(list@) =~= line_views(before).push(shown[i as int]));
        assert(shown.take(i + 1) =~= shown.take(i as int).push(shown[i as int]));
        i += 1;
    }
    assert(all@.len() == lines(text@).len());
    assert(line_views(list@) =~= shown);
    assemble(list, file_name)
}

// ---------------------------------------------------------------------------
// Files
// ---------------------------------------------------------------------------

/// Whether a character may stand in a receipt's file name.
pub open spec fn file_name_char(c: char) -> bool {
    ||| 'a' <= c <= 'z'
    ||| 'A' <= c <= 'Z'
    ||| '0' <= c <= '9'
    ||| c == '.'
    ||| c == '-'
    ||| c == '_'
}

/// Whether a file is a receipt, by its name.
pub open spec fn receipt_file_name(name: Seq<char>) -> bool {
    &&& ".jsonl"@.is_suffix_of(name)
    &&& "receipt-"@.is_prefix_of(name) || "reap-"@.is_prefix_of(name)
    &&& forall|i: int| 0 <= i < name.len() ==> file_name_char(#[trigger] name[i])
}

/// Whether a file is a receipt, by its name.
pub fn valid_receipt_filename(name: &str) -> (r: bool)
    ensures
        r == receipt_file_name(name@),
{
    if !ends_with(name, ".jsonl") || !(starts_with(name, "receipt-") || starts_with(
        name,
        "reap-",
    )) {
        return false;
    }
    let chars = chars_of(name);
    let mut i: usize = 0;
    while i < chars.len()
        invariant
            i <= chars.len(),
            chars@ == name@,
            forall|k: int| 0 <= k < i ==> file_name_char(#[trigger] name@[k]),
        decreases chars.len() - i,
    {
        let c = chars[i];
        if !(('a' <= c && c <= 'z') || ('A' <= c && c <= 'Z') || ('0' <= c && c <= '9') || c == '.'
            || c == '-' || c == '_') {
            assert(!file_name_char(name@[i as int]));
            return false;
        }
        i += 1;
    }
    true
}

/// Where receipts are kept.
pub fn audit_dir(home: &FsPath) -> (r: FsPath)
    ensures
        r@ == child_path(home@, ".cachereaper"@),
{
    home.child(".cachereaper")
}

/// The time in milliseconds since the epoch, from whole seconds and nanoseconds;
/// zero for a clock that stands before it.
pub fn now_millis(since_epoch: Option<(u64, u32)>) -> (r: u128)
    ensures
        r == (match since_epoch {
            Some((seconds, nanos)) => seconds * 1000 + nanos as int / 1_000_000,
            None => 0,
        }),
{
    match since_epoch {
        Some((seconds, nanos)) => seconds as u128 * 1000 + (nanos / 1_000_000) as u128,
        None => 0,
    }
}

/// How much more free space there is than before, where both are known.
pub open spec fn space_gained(before: Option<u64>, after: Option<u64>) -> Option<i128> {
    match (before, after) {
        (Some(before), Some(after)) => Some((after - before) as i128),
        _ => None,
    }
}

/// How much more free space there is than before, where both are known.
pub fn signed_free_space_change(before: Option<u64>, after: Option<u64>) -> (r: Option<i128>)
    ensures
        r == space_gained(before, after),
{
    match (before, after) {
        (Some(before), Some(after)) => Some(after as i128 - before as i128),
        _ => None,
    }
}

/// A file in the audit directory.
#[derive(Debug)]
pub struct HistoryFile {
    pub name: String,
    pub text: String,
}

/// The receipt in a file, if it is one.
pub open spec fn file_receipt(file: HistoryFile) -> Option<ReceiptView> {
    if receipt_file_name(file.name@) {
        receipt_of(contributions(lines(file.text@)), file.name@)
    } else {
        None
    }
}

/// The receipts in a list of files, in the order of the files.
pub open spec fn file_receipts(files: Seq<HistoryFile>) -> Seq<ReceiptView>
    decreases files.len(),
{
    if files.len() == 0 {
        Seq::empty()
    } else {
        match file_receipt(files.last()) {
            Some(receipt) => file_receipts(files.drop_last()).push(receipt),
            None => file_receipts(files.drop_last()),
        }
    }
}

/// What a list of receipts says.
pub open spec fn receipt_views(receipts: Seq<Receipt>) -> Seq<ReceiptView> {
    receipts.map_values(|receipt: Receipt| receipt@)
}

/// Whether receipt `a` stands no later than receipt `b`: it started later, or at
/// the same time with a greater id, or both are equal in that.
pub open spec fn newer(a: ReceiptView, b: ReceiptView) -> bool {
    a.started_at > b.started_at || (a.started_at == b.started_at && text_le(
        b.receipt_id,
        a.receipt_id,
    ))
}

impl Ranked for Receipt {
    open spec fn ranks_le(&self, other: &Self) -> bool {
        newer(self@, other@)
    }

    proof fn ranks_total(&self, other: &Self) {
        lemma_text_total(self.receipt_id@, other.receipt_id@);
    }

    proof fn ranks_transitive(&self, mid: &Self, other: &Self) {
        if self.started_at == mid.started_at && mid.started_at == other.started_at {
            lemma_text_transitive(other.receipt_id@, mid.receipt_id@, self.receipt_id@);
        }
    }

    fn no_later(&self, other: &Self) -> (r: bool) {
        self.started_at > other.started_at || (self.started_at == other.started_at && text_before(
            other.receipt_id.as_str(),
            self.receipt_id.as_str(),
        ))
    }
}

/// Whether `sorted` holds the receipts of `list`, the newest first. Those with
/// the same time and id keep their order.
pub open spec fn newest_first(list: Seq<ReceiptView>, sorted: Seq<ReceiptView>) -> bool {
    exists|order: Seq<usize>| #[trigger] sorted_by(list, sorted, order)
}

/// Whether `a` is placed in front of `b`.
pub open spec fn placed_before(list: Seq<ReceiptView>, a: int, b: int) -> bool {
    newer(list[a], list[b]) && (newer(list[b], list[a]) ==> a < b)
}

/// Whether `order` takes the receipts of `list` to those of `sorted`.
pub open spec fn sorted_by(
    list: Seq<ReceiptView>,
    sorted: Seq<ReceiptView>,
    order: Seq<usize>,
) -> bool {
    &&& order.len() == list.len()
    &&& sorted.len() == list.len()
    &&& forall|k: int|
        0 <= k < sorted.len() ==> order[k] < list.len() && #[trigger] sorted[k]
            == list[order[k] as int]
    &&& forall|i: usize| i < list.len() ==> #[trigger] order.contains(i)
    &&& forall|p: int, q: int|
        0 <= p < q < order.len() ==> #[trigger] placed_before(
            list,
            order[p] as int,
            order[q] as int,
        )
}

/// Order receipts, the newest first.
pub fn sort_receipts(receipts: &Vec<Receipt>) -> (r: Vec<Receipt>)
    ensures
        newest_first(receipt_views(receipts@), receipt_views(r@)),
{
    let order = stable_sort(receipts);
    let ghost all = receipt_views(receipts@);
    let mut out: Vec<Receipt> = Vec::new();
    let mut k: usize = 0;
    while k < order.len()
        invariant
            k <= order.len(),
            all == receipt_views(receipts@),
            stable_order(receipts@, order@),
            out@.len() == k,
            forall|m: int|
                0 <= m < k ==> #[trigger] receipt_views(out@)[m] == all[order@[m] as int],
        decreases order.len() - k,
    {
        let ghost before = out@;
        out.push(receipts[order[k]].clone());
        assert forall|m: int| 0 <= m < k + 1 implies #[trigger] receipt_views(out@)[m]
            == all[order@[m] as int] by {
            if m < k {
                assert(receipt_views(before)[m] == receipt_views(out@)[m]);
            }
        }
        k += 1;
    }
    proof {
        assert forall|p: int, q: int| 0 <= p < q < order@.len() implies #[trigger] placed_before(
            all,
            order@[p] as int,
            order@[q] as int,
        ) by {
            assert(crate::order::sorts_before(receipts@, order@[p] as int, order@[q] as int));
        }
        assert(sorted_by(all, receipt_views(out@), order@));
    }
    out
}

/// The history in the audit directory's files, the newest first. Files that are
/// not receipts by their name, or hold nothing, do not count.
pub fn read_history(files: &Vec<HistoryFile>) -> (r: Vec<Receipt>)
    ensures
        newest_first(file_receipts(files@), receipt_views(r@)),
{
    let mut found: Vec<Receipt> = Vec::new();
    let mut i: usize = 0;
    assert(receipt_views(found@) =~= file_receipts(files@.take(0)));
    while i < files.len()
        invariant
            i <= files.len(),
            receipt_views(found@) == file_receipts(files@.take(i as int)),
        decreases files.len() - i,
    {
        let ghost before = found@;
        assert(files@.take(i + 1).drop_last() =~= files@.take(i as int));
        assert(files@.take(i + 1).last() == files@[i as int]);
        if valid_receipt_filename(files[i].name.as_str()) {
            if let Some(receipt) = parse_receipt(files[i].text.as_str(), files[i].name.as_str()) {
                found.push(receipt);
                assert(receipt_views(found@) =~= receipt_views(before).push(receipt@));
            }
        }
        i += 1;
    }
    assert(files@.take(files@.len() as int) =~= files@);
    sort_receipts(&found)
}

/// The place of the first receipt with an id.
pub open spec fn receipt_at(receipts: Seq<Receipt>, id: Seq<char>, i: int) -> bool {
    &&& 0 <= i < receipts.len()
    &&& receipts[i].receipt_id@ == id
    &&& forall|k: int| 0 <= k < i ==> (#[trigger] receipts[k]).receipt_id@ != id
}

/// Whether some receipt has this id.
pub open spec fn has_receipt(receipts: Seq<Receipt>, id: Seq<char>) -> bool {
    exists|i: int| 0 <= i < receipts.len() && (#[trigger] receipts[i]).receipt_id@ == id
}

/// The first receipt with an id.
pub fn find_receipt(receipts: &Vec<Receipt>, id: &str) -> (r: Option<usize>)
    ensures
        (match r {
            Some(i) => receipt_at(receipts@, id@, i as int),
            None => !has_receipt(receipts@, id@),
        }),
{
    let mut i: usize = 0;
    while i < receipts.len()
        invariant
            i <= receipts.len(),
            forall|k: int| 0 <= k < i ==> (#[trigger] receipts@[k]).receipt_id@ != id@,
        decreases receipts.len() - i,
    {
        if *receipts[i].receipt_id.as_str() == *id {
            return Some(i);
        }
        i += 1;
    }
    None
}

/// The file to remove for a receipt to be deleted, or why there is none.
pub fn delete_receipt(receipts: &Vec<Receipt>, receipt_id: &str) -> (r: Result<String, String>)
    ensures
        (match r {
            Ok(name) => exists|i: int|
                #[trigger] receipt_at(receipts@, receipt_id@, i) && receipts@[i].file_name@ == name@
                    && receipt_file_name(name@),
            Err(why) => if has_receipt(receipts@, receipt_id@) {
                why@ == "invalid receipt filename"@ && exists|i: int| #[trigger]
                    receipt_at(receipts@, receipt_id@, i) && !receipt_file_name(
                        receipts@[i].file_name@,
                    )
            } else {
                why@ == "receipt not found"@
            },
        }),
{
    match find_receipt(receipts, receipt_id) {
        None => Err("receipt not found".to_string()),
        Some(i) => {
            assert(receipts@[i as int].receipt_id@ == receipt_id@);
            if valid_receipt_filename(receipts[i].file_name.as_str()) {
                Ok(receipts[i].file_name.clone())
            } else {
                Err("invalid receipt filename".to_string())
            }
        },
    }
}

/// The files of the receipts that are receipts by their name.
pub open spec fn clearable(receipts: Seq<Receipt>) -> Seq<Seq<char>>
    decreases receipts.len(),
{
    if receipts.len() == 0 {
        Seq::empty()
    } else if receipt_file_name(receipts.last().file_name@) {
        clearable(receipts.drop_last()).push(receipts.last().file_name@)
    } else {
        clearable(receipts.drop_last())
    }
}

/// The files to remove, in order, for the history to be cleared.
pub fn clear_history(receipts: &Vec<Receipt>) -> (r: Vec<String>)
    ensures
        texts(r@) == clearable(receipts@),
{
    let mut out: Vec<String> = Vec::new();
    let mut i: usize = 0;
    assert(texts(out@) =~= clearable(receipts@.take(0)));
    while i < receipts.len()
        invariant
            i <= receipts.len(),
            texts(out@) == clearable(receipts@.take(i as int)),
        decreases receipts.len() - i,
    {
        let ghost before = out@;
        assert(receipts@.take(i + 1).drop_last() =~= receipts@.take(i as int));
        assert(receipts@.take(i + 1).last() == receipts@[i as int]);
        if valid_receipt_filename(receipts[i].file_name.as_str()) {
            out.push(receipts[i].file_name.clone());
            assert(texts(out@) =~= texts(before).push(receipts@[i as int].file_name@));
        }
        i += 1;
    }
    assert(receipts@.take(receipts@.len() as int) =~= receipts@);
    out
}

// ---------------------------------------------------------------------------
// Free space
// ---------------------------------------------------------------------------

/// A column of the last line of `df -Pk`, in bytes.
pub open spec fn df_column(output: Seq<char>, column: int) -> Option<u64> {
    let all = lines(output);
    if all.len() == 0 {
        None
    } else {
        let columns = words(all.last());
        if 0 <= column < columns.len() {
            match unsigned(columns[column]) {
                Some(kilobytes) => Some(
                    if kilobytes * 1024 > u64::MAX {
                        u64::MAX
                    } else {
                        (kilobytes * 1024) as u64
                    },
                ),
                None => None,
            }
        } else {
            None
        }
    }
}

/// A column of the last line of `df -Pk`, in bytes.
pub fn read_df_column(output: &str, column: usize) -> (r: Option<u64>)
    ensures
        r == df_column(output@, column as int),
{
    let all = lines_of(output);
    if all.len() == 0 {
        return None;
    }
    assert(lines(output@).last() == all@[all@.len() - 1]@);
    let columns = words_of(all[all.len() - 1].as_str());
    if column < columns.len() {
        assert(words(lines(output@).last())[column as int] == columns@[column as int]@);
        match unsigned_of(columns[column].as_str()) {
            Some(kilobytes) => if kilobytes > 0x3f_ffff_ffff_ffff {
                Some(0xffff_ffff_ffff_ffff)
            } else {
                Some(kilobytes * 1024)
            },
            None => None,
        }
    } else {
        None
    }
}

/// The free space that `df -Pk` reports, in bytes.
pub fn free_space(output: &str) -> (r: Option<u64>)
    ensures
        r == df_column(output@, 3),
{
    read_df_column(output, 3)
}

// ---------------------------------------------------------------------------
// Writing
// ---------------------------------------------------------------------------

/// An optional number to be written.
pub open spec fn optional_written(n: Option<u64>) -> WrittenView {
    match n {
        Some(n) => WrittenView::Natural(n as u128),
        None => WrittenView::Null,
    }
}

fn write_optional(n: Option<u64>) -> (r: Written)
    ensures
        r@ == optional_written(n),
{
    match n {
        Some(n) => Written::Natural(n as u128),
        None => Written::Null,
    }
}

/// The members of a header, in the order in which they are written.
pub open spec fn header_members(header: HeaderView) -> Seq<(Seq<char>, WrittenView)> {
    seq![
        ("schema"@, WrittenView::Natural(header.schema as u128)),
        ("kind"@, WrittenView::Text(header.kind)),
        ("receipt_id"@, WrittenView::Text(header.receipt_id)),
        ("started_at"@, WrittenView::Natural(header.started_at)),
        ("root"@, WrittenView::Text(header.root)),
        ("estimated_bytes"@, WrittenView::Natural(header.estimated_bytes as u128)),
        ("free_before"@, optional_written(header.free_before)),
    ]
}

/// The members of a header, in the order in which they are written.
pub fn encode_header(header: &ReceiptHeader) -> (r: Vec<WrittenField>)
    ensures
        written_fields(r@) == header_members(header@),
{
    let r = vec![
        WrittenField { key: "schema", value: Written::Natural(header.schema as u128) },
        WrittenField { key: "kind", value: Written::Text(header.kind.clone()) },
        WrittenField { key: "receipt_id", value: Written::Text(header.receipt_id.clone()) },
        WrittenField { key: "started_at", value: Written::Natural(header.started_at) },
        WrittenField { key: "root", value: Written::Text(header.root.clone()) },
        WrittenField {
            key: "estimated_bytes",
            value: Written::Natural(header.estimated_bytes as u128),
        },
        WrittenField { key: "free_before", value: write_optional(header.free_before) },
    ];
    assert(written_fields(r@) =~= header_members(header@));
    r
}

/// The members of an item, in the order in which they are written.
pub open spec fn item_members(item: ItemView) -> Seq<(Seq<char>, WrittenView)> {
    seq![
        ("schema"@, WrittenView::Natural(item.schema as u128)),
        ("kind"@, WrittenView::Text(item.kind)),
        ("path"@, WrittenView::Text(item.path)),
        ("rule"@, WrittenView::Text(item.rule)),
        ("tier"@, WrittenView::Text(item.tier)),
        ("label"@, WrittenView::Text(item.label)),
        ("regen"@, WrittenView::Text(item.regen)),
        ("estimated_bytes"@, WrittenView::Natural(item.estimated_bytes as u128)),
        ("status"@, WrittenView::Text(item.status)),
        ("reason"@, WrittenView::Text(item.reason)),
    ]
}

/// The members of an item, in the order in which they are written.
pub fn encode_item(item: &ReceiptItem) -> (r: Vec<WrittenField>)
    ensures
        written_fields(r@) == item_members(item@),
{
    let r = vec![
        WrittenField { key: "schema", value: Written::Natural(item.schema as u128) },
        WrittenField { key: "kind", value: Written::Text(item.kind.clone()) },
        WrittenField { key: "path", value: Written::Text(item.path.clone()) },
        WrittenField { key: "rule", value: Written::Text(item.rule.clone()) },
        WrittenField { key: "tier", value: Written::Text(item.tier.clone()) },
        WrittenField { key: "label", value: Written::Text(item.label.clone()) },
        WrittenField { key: "regen", value: Written::Text(item.regen.clone()) },
        WrittenField {
            key: "estimated_bytes",
            value: Written::Natural(item.estimated_bytes as u128),
        },
        WrittenField { key: "status", value: Written::Text(item.status.clone()) },
        WrittenField { key: "reason", value: Written::Text(item.reason.clone()) },
    ];
    assert(written_fields(r@) =~= item_members(item@));
    r
}

/// The members of a summary, in the order in which they are written.
pub open spec fn summary_members(summary: SummaryView) -> Seq<(Seq<char>, WrittenView)> {
    seq![
        ("schema"@, WrittenView::Natural(summary.schema as u128)),
        ("kind"@, WrittenView::Text(summary.kind)),
        ("finished_at"@, WrittenView::Natural(summary.finished_at)),
        ("removed_count"@, WrittenView::Natural(summary.removed_count as u128)),
        ("skipped_count"@, WrittenView::Natural(summary.skipped_count as u128)),
        (
            "estimated_removed_bytes"@,
            WrittenView::Natural(summary.estimated_removed_bytes as u128),
        ),
        ("free_after"@, optional_written(summary.free_after)),
        (
            "signed_free_space_change"@,
            match summary.signed_free_space_change {
                Some(change) => WrittenView::Integer(change),
                None => WrittenView::Null,
            },
        ),
        ("complete"@, WrittenView::Bool(summary.complete)),
    ]
}

/// The members of a summary, in the order in which they are written.
pub fn encode_summary(summary: &ReceiptSummary) -> (r: Vec<WrittenField>)
    ensures
        written_fields(r@) == summary_members(summary@),
{
    let change = match summary.signed_free_space_change {
        Some(change) => Written::Integer(change),
        None => Written::Null,
    };
    let r = vec![
        WrittenField { key: "schema", value: Written::Natural(summary.schema as u128) },
        WrittenField { key: "kind", value: Written::Text(summary.kind.clone()) },
        WrittenField { key: "finished_at", value: Written::Natural(summary.finished_at) },
        WrittenField {
            key: "removed_count",
            value: Written::Natural(summary.removed_count as u128),
        },
        WrittenField {
            key: "skipped_count",
            value: Written::Natural(summary.skipped_count as u128),
        },
        WrittenField {
            key: "estimated_removed_bytes",
            value: Written::Natural(summary.estimated_removed_bytes as u128),
        },
        WrittenField { key: "free_after", value: write_optional(summary.free_after) },
        WrittenField { key: "signed_free_space_change", value: change },
        WrittenField { key: "complete", value: Written::Bool(summary.complete) },
    ];
    assert(written_fields(r@) =~= summary_members(summary@));
    r
}

/// The line of a header. Read back, it is that header, as long as its time fits
/// 64 bits.
pub fn header_line(header: &ReceiptHeader) -> (r: String)
    requires
        header.kind@ == "header"@,
    ensures
        r@ == json_text(header_members(header@)),
        one_line(r@),
        header.started_at <= u64::MAX ==> line_contribution(r@) == ReceiptLineView::Header(
            header@,
        ),
{
    let members = encode_header(header);
    proof {
        lemma_keys_differ();
    }
    let line = write_json(&members);
    proof {
        let object = parsed_json(line@)->Object_0;
        if header.started_at <= u64::MAX {
            law_header_round_trips(header@, object);
        }
    }
    line
}

/// The line of an item. Read back, it is that item.
pub fn item_line(item: &ReceiptItem) -> (r: String)
    requires
        item.kind@ == "item"@,
    ensures
        r@ == json_text(item_members(item@)),
        one_line(r@),
        line_contribution(r@) == ReceiptLineView::Item(item@),
{
    let members = encode_item(item);
    proof {
        lemma_keys_differ();
        lemma_kinds_differ();
    }
    let line = write_json(&members);
    proof {
        let object = parsed_json(line@)->Object_0;
        law_item_round_trips(item@, object);
    }
    line
}

/// Whether the figures of a summary can be read back as they are written.
pub open spec fn legible(summary: SummaryView) -> bool {
    &&& summary.finished_at <= u64::MAX
    &&& summary.signed_free_space_change matches Some(change) ==> i64::MIN <= change <= u64::MAX
}

/// The line of a summary. Read back, it is that summary, as long as its figures
/// are legible.
pub fn summary_line(summary: &ReceiptSummary) -> (r: String)
    requires
        summary.kind@ == "summary"@,
    ensures
        r@ == json_text(summary_members(summary@)),
        one_line(r@),
        legible(summary@) ==> line_contribution(r@) == ReceiptLineView::Summary(summary@),
{
    let members = encode_summary(summary);
    proof {
        lemma_keys_differ();
        lemma_kinds_differ();
    }
    let line = write_json(&members);
    proof {
        let object = parsed_json(line@)->Object_0;
        if legible(summary@) {
            law_summary_round_trips(summary@, object);
        }
    }
    line
}

// ---------------------------------------------------------------------------
// What receipts promise
// ---------------------------------------------------------------------------

/// A receipt's file name never leads out of the audit directory: it holds no
/// separator and is no `..`.
pub proof fn law_receipt_names_stay_inside(name: Seq<char>)
    requires
        receipt_file_name(name),
    ensures
        !name.contains('/'),
        !name.contains('\\'),
        !name.contains(':'),
        name != "."@,
        name != ".."@,
{
    if name.contains('/') || name.contains('\\') || name.contains(':') {
        let i = choose|i: int|
            0 <= i < name.len() && (name[i] == '/' || name[i] == '\\' || name[i] == ':');
        assert(file_name_char(name[i]));
    }
    reveal_strlit("receipt-");
    reveal_strlit("reap-");
    reveal_strlit(".");
    reveal_strlit("..");
    assert("receipt-"@.len() == 8 && "reap-"@.len() == 5);
    assert("."@.len() == 1 && ".."@.len() == 2);
    assert(name.len() >= 5);
}

/// Everything the history hands out for deletion is a receipt by its name.
pub proof fn law_only_receipts_are_cleared(receipts: Seq<Receipt>)
    ensures
        forall|k: int|
            0 <= k < clearable(receipts).len() ==> receipt_file_name(
                #[trigger] clearable(receipts)[k],
            ),
    decreases receipts.len(),
{
    if receipts.len() > 0 {
        law_only_receipts_are_cleared(receipts.drop_last());
        let before = clearable(receipts.drop_last());
        let all = clearable(receipts);
        assert forall|k: int| 0 <= k < all.len() implies receipt_file_name(#[trigger] all[k]) by {
            if k < before.len() {
                assert(all[k] == before[k]);
            }
        }
    }
}

/// A receipt without a summary was cut short and is never complete, unless it is
/// a file of bare lines.
pub proof fn law_truncated_is_not_complete(
    list: Seq<ReceiptLineView>,
    file_name: Seq<char>,
    receipt: ReceiptView,
)
    requires
        receipt_of(list, file_name) == Some(receipt),
        receipt.summary is None,
    ensures
        receipt.complete ==> receipt.legacy,
{
}

/// Malformed lines are skipped, counted and reported; they take nothing else
/// away from a receipt that has a header.
pub proof fn law_malformed_lines_are_reported(
    list: Seq<ReceiptLineView>,
    file_name: Seq<char>,
    at: int,
)
    requires
        0 <= at <= list.len(),
        last_header(list) is Some,
    ensures
        ({
            let more = list.insert(at, ReceiptLineView::Malformed);
            let before = receipt_of(list, file_name)->0;
            receipt_of(more, file_name) == Some(
                ReceiptView { parse_warning: warning(malformed_lines(list) + 1), ..before },
            )
        }),
{
    lemma_malformed_changes_nothing(list, at);
}

proof fn lemma_malformed_changes_nothing(list: Seq<ReceiptLineView>, at: int)
    requires
        0 <= at <= list.len(),
    ensures
        ({
            let more = list.insert(at, ReceiptLineView::Malformed);
            &&& last_header(more) == last_header(list)
            &&& last_summary(more) == last_summary(list)
            &&& line_items(more) == line_items(list)
            &&& malformed_lines(more) == malformed_lines(list) + 1
        }),
    decreases list.len(),
{
    let more = list.insert(at, ReceiptLineView::Malformed);
    if at == list.len() {
        assert(more.drop_last() =~= list);
    } else {
        lemma_malformed_changes_nothing(list.drop_last(), at);
        assert(more.drop_last() =~= list.drop_last().insert(at, ReceiptLineView::Malformed));
        assert(more.last() == list.last());
    }
}

/// The keys that receipts are written with are all different.
proof fn lemma_keys_differ()
    ensures
        "schema"@.len() == 6,
        "kind"@.len() == 4,
        "receipt_id"@.len() == 10 && "receipt_id"@[2] == 'c',
        "started_at"@.len() == 10 && "started_at"@[2] == 'a',
        "root"@.len() == 4,
        "kind"@[0] == 'k' && "root"@[0] == 'r',
        "estimated_bytes"@.len() == 15,
        "free_before"@.len() == 11 && "free_before"@[0] == 'f',
        "path"@.len() == 4 && "path"@[0] == 'p',
        "rule"@.len() == 4 && "rule"@[0] == 'r',
        "tier"@.len() == 4 && "tier"@[0] == 't',
        "label"@.len() == 5 && "label"@[0] == 'l',
        "regen"@.len() == 5 && "regen"@[0] == 'r',
        "status"@.len() == 6,
        "status"@[1] == 't' && "schema"@[1] == 'c' && "reason"@[1] == 'e',
        "reason"@.len() == 6,
        "finished_at"@.len() == 11 && "finished_at"@[1] == 'i',
        "removed_count"@.len() == 13 && "removed_count"@[0] == 'r',
        "skipped_count"@.len() == 13 && "skipped_count"@[0] == 's',
        "estimated_removed_bytes"@.len() == 23,
        "free_after"@.len() == 10,
        "signed_free_space_change"@.len() == 24,
        "complete"@.len() == 8,
{
    reveal_strlit("schema");
    reveal_strlit("kind");
    reveal_strlit("receipt_id");
    reveal_strlit("started_at");
    reveal_strlit("root");
    reveal_strlit("estimated_bytes");
    reveal_strlit("free_before");
    reveal_strlit("path");
    reveal_strlit("rule");
    reveal_strlit("tier");
    reveal_strlit("label");
    reveal_strlit("regen");
    reveal_strlit("status");
    reveal_strlit("reason");
    reveal_strlit("finished_at");
    reveal_strlit("removed_count");
    reveal_strlit("skipped_count");
    reveal_strlit("estimated_removed_bytes");
    reveal_strlit("free_after");
    reveal_strlit("signed_free_space_change");
    reveal_strlit("complete");
}

proof fn lemma_kinds_differ()
    ensures
        "header"@ != "item"@,
        "header"@ != "summary"@,
        "item"@ != "summary"@,
{
    reveal_strlit("header");
    reveal_strlit("item");
    reveal_strlit("summary");
    assert("header"@.len() == 6 && "item"@.len() == 4 && "summary"@.len() == 7);
}

/// The `k`th of differently named members is what its name leads to.
proof fn lemma_written_member(list: Seq<(Seq<char>, WrittenView)>, k: int)
    requires
        0 <= k < list.len(),
        forall|i: int| 0 <= i < k ==> (#[trigger] list[i]).0 != list[k].0,
    ensures
        written_member(list, list[k].0) == Some(list[k].1),
    decreases k,
{
    if k > 0 {
        let rest = list.drop_first();
        assert(rest[k - 1] == list[k]);
        assert forall|i: int| 0 <= i < k - 1 implies (#[trigger] rest[i]).0 != rest[k - 1].0 by {
            assert(rest[i] == list[i + 1]);
        }
        lemma_written_member(rest, k - 1);
    }
}

/// A header that was written and read back is the same header.
pub proof fn law_header_round_trips(header: HeaderView, object: Seq<JsonFieldView>)
    requires
        reads_back(header_members(header), object),
        header.started_at <= u64::MAX,
    ensures
        header_of(object) == Some(header),
{
    let list = header_members(header);
    lemma_keys_differ();
    assert forall|k: int| 0 <= k < list.len() implies written_member(list, (#[trigger] list[k]).0)
        == Some(list[k].1) by {
        lemma_written_member(list, k);
    }
    assert(written_member(list, list[0].0) == Some(list[0].1));
    assert(written_member(list, list[1].0) == Some(list[1].1));
    assert(written_member(list, list[2].0) == Some(list[2].1));
    assert(written_member(list, list[3].0) == Some(list[3].1));
    assert(written_member(list, list[4].0) == Some(list[4].1));
    assert(written_member(list, list[5].0) == Some(list[5].1));
    assert(written_member(list, list[6].0) == Some(list[6].1));
    assert(member(object, "schema"@) is Some);
    assert(member(object, "kind"@) is Some);
    assert(member(object, "receipt_id"@) is Some);
    assert(member(object, "started_at"@) is Some);
    assert(member(object, "root"@) is Some);
    assert(member(object, "estimated_bytes"@) is Some);
    assert(member(object, "free_before"@) is Some);
}

/// An item that was written and read back is the same item.
pub proof fn law_item_round_trips(item: ItemView, object: Seq<JsonFieldView>)
    requires
        reads_back(item_members(item), object),
    ensures
        item_of(object) == Some(item),
{
    let list = item_members(item);
    lemma_keys_differ();
    assert forall|k: int| 0 <= k < list.len() implies written_member(list, (#[trigger] list[k]).0)
        == Some(list[k].1) by {
        lemma_written_member(list, k);
    }
    assert(written_member(list, list[0].0) == Some(list[0].1));
    assert(written_member(list, list[1].0) == Some(list[1].1));
    assert(written_member(list, list[2].0) == Some(list[2].1));
    assert(written_member(list, list[3].0) == Some(list[3].1));
    assert(written_member(list, list[4].0) == Some(list[4].1));
    assert(written_member(list, list[5].0) == Some(list[5].1));
    assert(written_member(list, list[6].0) == Some(list[6].1));
    assert(written_member(list, list[7].0) == Some(list[7].1));
    assert(written_member(list, list[8].0) == Some(list[8].1));
    assert(written_member(list, list[9].0) == Some(list[9].1));
    assert(member(object, "schema"@) is Some);
    assert(member(object, "kind"@) is Some);
    assert(member(object, "path"@) is Some);
    assert(member(object, "rule"@) is Some);
    assert(member(object, "tier"@) is Some);
    assert(member(object, "label"@) is Some);
    assert(member(object, "regen"@) is Some);
    assert(member(object, "estimated_bytes"@) is Some);
    assert(member(object, "status"@) is Some);
    assert(member(object, "reason"@) is Some);
}

/// A summary that was written and read back is the same summary.
pub proof fn law_summary_round_trips(summary: SummaryView, object: Seq<JsonFieldView>)
    requires
        reads_back(summary_members(summary), object),
        legible(summary),
    ensures
        summary_of(object) == Some(summary),
{
    let list = summary_members(summary);
    lemma_keys_differ();
    assert forall|k: int| 0 <= k < list.len() implies written_member(list, (#[trigger] list[k]).0)
        == Some(list[k].1) by {
        lemma_written_member(list, k);
    }
    assert(written_member(list, list[0].0) == Some(list[0].1));
    assert(written_member(list, list[1].0) == Some(list[1].1));
    assert(written_member(list, list[2].0) == Some(list[2].1));
    assert(written_member(list, list[3].0) == Some(list[3].1));
    assert(written_member(list, list[4].0) == Some(list[4].1));
    assert(written_member(list, list[5].0) == Some(list[5].1));
    assert(written_member(list, list[6].0) == Some(list[6].1));
    assert(written_member(list, list[7].0) == Some(list[7].1));
    assert(written_member(list, list[8].0) == Some(list[8].1));
    assert(member(object, "schema"@) is Some);
    assert(member(object, "kind"@) is Some);
    assert(member(object, "finished_at"@) is Some);
    assert(member(object, "removed_count"@) is Some);
    assert(member(object, "skipped_count"@) is Some);
    assert(member(object, "estimated_removed_bytes"@) is Some);
    assert(member(object, "free_after"@) is Some);
    assert(member(object, "signed_free_space_change"@) is Some);
    assert(member(object, "complete"@) is Some);
}

/// The lines of a session: its header, its items, and its summary if it was
/// finished.
pub open spec fn session_lines(
    header: HeaderView,
    items: Seq<ItemView>,
    summary: Option<SummaryView>,
) -> Seq<ReceiptLineView> {
    let start = seq![ReceiptLineView::Header(header)] + items.map_values(
        |item: ItemView| ReceiptLineView::Item(item),
    );
    match summary {
        Some(summary) => start.push(ReceiptLineView::Summary(summary)),
        None => start,
    }
}

proof fn lemma_item_lines(header: HeaderView, items: Seq<ItemView>)
    ensures
        ({
            let list = session_lines(header, items, None);
            &&& last_header(list) == Some(header)
            &&& last_summary(list) is None
            &&& line_items(list) == items
            &&& malformed_lines(list) == 0
        }),
    decreases items.len(),
{
    let list = session_lines(header, items, None);
    if items.len() == 0 {
        assert(list =~= seq![ReceiptLineView::Header(header)]);
        let nothing = list.drop_last();
        assert(nothing.len() == 0);
        assert(last_summary(nothing) is None);
        assert(malformed_lines(nothing) == 0);
        assert(line_items(nothing) =~= items);
    } else {
        lemma_item_lines(header, items.drop_last());
        assert(list.drop_last() =~= session_lines(header, items.drop_last(), None));
        assert(list.last() == ReceiptLineView::Item(items.last()));
        assert(items =~= items.drop_last().push(items.last()));
    }
}

/// Reading the lines of a session gives back its header, every item in order and
/// its summary. It is complete if and only if it was finished without trouble.
pub proof fn law_sessions_read_back(
    header: HeaderView,
    items: Seq<ItemView>,
    summary: Option<SummaryView>,
    file_name: Seq<char>,
)
    ensures
        receipt_of(session_lines(header, items, summary), file_name) == Some(
            ReceiptView {
                receipt_id: header.receipt_id,
                started_at: header.started_at,
                root: header.root,
                estimated_bytes: header.estimated_bytes,
                free_before: header.free_before,
                items,
                summary,
                complete: summary matches Some(s) && s.complete,
                legacy: false,
                parse_warning: None,
                file_name,
            },
        ),
{
    lemma_item_lines(header, items);
    let start = session_lines(header, items, None);
    match summary {
        Some(s) => {
            let list = session_lines(header, items, summary);
            assert(list.drop_last() =~= start);
        },
        None => {},
    }
}

/// The text of a file with these lines, each ended by a line feed.
pub open spec fn file_text(list: Seq<Seq<char>>) -> Seq<char>
    decreases list.len(),
{
    if list.len() == 0 {
        Seq::empty()
    } else {
        list[0].push('\n') + file_text(list.drop_first())
    }
}

/// A file of single lines, each ended by a line feed, has exactly those lines: a
/// receipt that is appended to line by line is read line by line.
pub proof fn law_appended_lines_are_read(list: Seq<Seq<char>>)
    requires
        forall|i: int| 0 <= i < list.len() ==> one_line(#[trigger] list[i]),
    ensures
        lines(file_text(list)) == list,
    decreases list.len(),
{
    if list.len() > 0 {
        let first = list[0];
        let rest = list.drop_first();
        assert forall|i: int| 0 <= i < rest.len() implies one_line(#[trigger] rest[i]) by {
            assert(rest[i] == list[i + 1]);
        }
        law_appended_lines_are_read(rest);
        let text = file_text(list);
        let n = first.len() as int;
        assert(one_line(list[0]));
        assert forall|i: int| 0 <= i < n implies text[i] != '\n' by {
            assert(text[i] == first[i]);
            assert(first.contains(first[i]));
        }
        assert(text[n] == '\n');
        lemma_line_length_is(text, n);
        assert(text.subrange(0, n) =~= first);
        assert(text.subrange(n + 1, text.len() as int) =~= file_text(rest));
        assert(list =~= seq![first] + rest);
    } else {
        assert(lines(file_text(list)) =~= list);
    }
}

/// A receipt that was written line by line is read back whole: whatever lines a
/// session appended, its file gives its header, every item in order and its
/// summary.
pub proof fn law_receipts_read_back(
    list: Seq<Seq<char>>,
    header: HeaderView,
    items: Seq<ItemView>,
    summary: Option<SummaryView>,
    file_name: Seq<char>,
)
    requires
        forall|i: int| 0 <= i < list.len() ==> one_line(#[trigger] list[i]),
        contributions(list) == session_lines(header, items, summary),
    ensures
        receipt_of(contributions(lines(file_text(list))), file_name) == Some(
            ReceiptView {
                receipt_id: header.receipt_id,
                started_at: header.started_at,
                root: header.root,
                estimated_bytes: header.estimated_bytes,
                free_before: header.free_before,
                items,
                summary,
                complete: summary matches Some(s) && s.complete,
                legacy: false,
                parse_warning: None,
                file_name,
            },
        ),
{
    law_appended_lines_are_read(list);
    law_sessions_read_back(header, items, summary, file_name);
}

// ---------------------------------------------------------------------------
// What the history holds, and what clearing it takes away
// ---------------------------------------------------------------------------

/// A file is a receipt exactly if it is called `receipt-` or `reap-` something and
/// `.jsonl`, with nothing but letters, digits, dots, dashes and underscores in
/// its name.
pub proof fn law_receipt_names_are_spelled(name: Seq<char>)
    ensures
        receipt_file_name(name) <==> {
            &&& name.len() >= 11
            &&& name.subrange(name.len() - 6, name.len() as int) == seq![
                '.',
                'j',
                's',
                'o',
                'n',
                'l',
            ]
            &&& {
                ||| name.subrange(0, 5) == seq!['r', 'e', 'a', 'p', '-']
                ||| name.len() >= 14 && name.subrange(0, 8) == seq![
                    'r',
                    'e',
                    'c',
                    'e',
                    'i',
                    'p',
                    't',
                    '-',
                ]
            }
            &&& forall|i: int|
                0 <= i < name.len() ==> {
                    ||| 97 <= (#[trigger] name[i]) as int <= 122
                    ||| 65 <= name[i] as int <= 90
                    ||| 48 <= name[i] as int <= 57
                    ||| name[i] == '.'
                    ||| name[i] == '-'
                    ||| name[i] == '_'
                }
        },
{
    reveal_strlit(".jsonl");
    reveal_strlit("receipt-");
    reveal_strlit("reap-");
    let end = seq!['.', 'j', 's', 'o', 'n', 'l'];
    let long = seq!['r', 'e', 'c', 'e', 'i', 'p', 't', '-'];
    let short = seq!['r', 'e', 'a', 'p', '-'];
    assert(".jsonl"@ =~= end);
    assert("receipt-"@ =~= long);
    assert("reap-"@ =~= short);
    assert(end.len() == 6 && long.len() == 8 && short.len() == 5);
    let n = name.len() as int;
    if receipt_file_name(name) {
        assert(n >= 6);
        assert(name.subrange(n - 6, n) =~= end);
        assert forall|k: int| 0 <= k < 6 implies #[trigger] name[n - 6 + k] == end[k] by {
            assert(name.subrange(n - 6, n)[k] == end[k]);
        }
        assert(name[n - 6 + 0] == '.' && name[n - 6 + 1] == 'j' && name[n - 6 + 2] == 's' && name[n
            - 6 + 3] == 'o' && name[n - 6 + 4] == 'n' && name[n - 6 + 5] == 'l');
        if short.is_prefix_of(name) {
            assert(name.subrange(0, 5) =~= short);
            assert forall|k: int| 0 <= k < 5 implies #[trigger] name[k] == short[k] by {
                assert(name.subrange(0, 5)[k] == short[k]);
            }
            assert(name[0] == 'r' && name[1] == 'e' && name[2] == 'a' && name[3] == 'p' && name[4]
                == '-');
            assert(n >= 11);
        } else {
            assert(name.subrange(0, 8) =~= long);
            assert forall|k: int| 0 <= k < 8 implies #[trigger] name[k] == long[k] by {
                assert(name.subrange(0, 8)[k] == long[k]);
            }
            assert(name[0] == 'r' && name[1] == 'e' && name[2] == 'c' && name[3] == 'e' && name[4]
                == 'i' && name[5] == 'p' && name[6] == 't' && name[7] == '-');
            assert(n >= 14);
        }
        assert forall|i: int| 0 <= i < name.len() implies {
            ||| 97 <= (#[trigger] name[i]) as int <= 122
            ||| 65 <= name[i] as int <= 90
            ||| 48 <= name[i] as int <= 57
            ||| name[i] == '.'
            ||| name[i] == '-'
            ||| name[i] == '_'
        } by {
            assert(file_name_char(name[i]));
        }
    }
}

/// Clearing the history takes each receipt by itself: its file is named, behind those
/// before it, if it is a receipt by its name, whatever else is the matter with it.
pub proof fn law_each_receipt_is_cleared(receipts: Seq<Receipt>, receipt: Receipt)
    ensures
        clearable(Seq::empty()).len() == 0,
        receipt_file_name(receipt.file_name@) ==> clearable(receipts.push(receipt)) == clearable(
            receipts,
        ).push(receipt.file_name@),
        !receipt_file_name(receipt.file_name@) ==> clearable(receipts.push(receipt)) == clearable(
            receipts,
        ),
{
    let more = receipts.push(receipt);
    assert(more.drop_last() =~= receipts);
    assert(more.last() == receipt);
}

/// Clearing the history leaves no receipt behind.
pub proof fn law_clearing_names_every_receipt(receipts: Seq<Receipt>, i: int)
    requires
        0 <= i < receipts.len(),
        receipt_file_name(receipts[i].file_name@),
    ensures
        clearable(receipts).contains(receipts[i].file_name@),
    decreases receipts.len(),
{
    let front = receipts.drop_last();
    let before = clearable(front);
    let all = clearable(receipts);
    if i < front.len() {
        assert(front[i] == receipts[i]);
        law_clearing_names_every_receipt(front, i);
        let k = choose|k: int| 0 <= k < before.len() && before[k] == receipts[i].file_name@;
        assert(all[k] == receipts[i].file_name@);
    } else {
        assert(all[before.len() as int] == receipts[i].file_name@);
    }
}

proof fn lemma_file_receipts(files: Seq<HistoryFile>, i: int, receipt: ReceiptView)
    requires
        0 <= i < files.len(),
        file_receipt(files[i]) == Some(receipt),
    ensures
        file_receipts(files).contains(receipt),
    decreases files.len(),
{
    let front = files.drop_last();
    let before = file_receipts(front);
    let all = file_receipts(files);
    if i < front.len() {
        assert(front[i] == files[i]);
        lemma_file_receipts(front, i, receipt);
        let k = choose|k: int| 0 <= k < before.len() && before[k] == receipt;
        assert(all[k] == receipt);
    } else {
        assert(all[before.len() as int] == receipt);
    }
}

proof fn lemma_receipts_have_files(files: Seq<HistoryFile>, k: int) -> (i: int)
    requires
        0 <= k < file_receipts(files).len(),
    ensures
        0 <= i < files.len(),
        file_receipt(files[i]) == Some(file_receipts(files)[k]),
    decreases files.len(),
{
    let front = files.drop_last();
    let before = file_receipts(front);
    if k < before.len() {
        let i = lemma_receipts_have_files(front, k);
        assert(front[i] == files[i]);
        i
    } else {
        files.len() - 1
    }
}

/// The history holds every receipt there is: each file that is one by its name, with
/// anything in it, is read.
pub proof fn law_every_receipt_is_read(
    files: Seq<HistoryFile>,
    sorted: Seq<ReceiptView>,
    i: int,
    receipt: ReceiptView,
)
    requires
        newest_first(file_receipts(files), sorted),
        files.len() <= usize::MAX,
        0 <= i < files.len(),
        receipt_file_name(files[i].name@),
        receipt_of(contributions(lines(files[i].text@)), files[i].name@) == Some(receipt),
    ensures
        sorted.contains(receipt),
        receipt.file_name == files[i].name@,
{
    let list = file_receipts(files);
    lemma_file_receipts(files, i, receipt);
    lemma_no_more_receipts(files);
    let k = choose|k: int| 0 <= k < list.len() && list[k] == receipt;
    let order = choose|order: Seq<usize>| #[trigger] sorted_by(list, sorted, order);
    assert(order.contains(k as usize));
    let p = choose|p: int| 0 <= p < order.len() && order[p] == k as usize;
    assert(sorted[p] == receipt);
}

proof fn lemma_no_more_receipts(files: Seq<HistoryFile>)
    ensures
        file_receipts(files).len() <= files.len(),
    decreases files.len(),
{
    if files.len() > 0 {
        lemma_no_more_receipts(files.drop_last());
    }
}

/// Nothing else is in the history: each receipt of it is that of a file which is one
/// by its name.
pub proof fn law_history_is_of_files(
    files: Seq<HistoryFile>,
    sorted: Seq<ReceiptView>,
    p: int,
) -> (i: int)
    requires
        newest_first(file_receipts(files), sorted),
        0 <= p < sorted.len(),
    ensures
        0 <= i < files.len(),
        receipt_file_name(files[i].name@),
        sorted[p].file_name == files[i].name@,
        receipt_of(contributions(lines(files[i].text@)), files[i].name@) == Some(sorted[p]),
        sorted.len() <= files.len(),
{
    let list = file_receipts(files);
    let order = choose|order: Seq<usize>| #[trigger] sorted_by(list, sorted, order);
    lemma_no_more_receipts(files);
    assert(sorted[p] == list[order[p] as int]);
    lemma_receipts_have_files(files, order[p] as int)
}

/// The history begins with what happened last; what started at the same time is
/// ordered by its id, downwards.
pub proof fn law_latest_receipts_come_first(
    list: Seq<ReceiptView>,
    sorted: Seq<ReceiptView>,
    p: int,
    q: int,
)
    requires
        newest_first(list, sorted),
        0 <= p < q < sorted.len(),
    ensures
        sorted[p].started_at >= sorted[q].started_at,
        sorted[p].started_at == sorted[q].started_at ==> text_le(
            sorted[q].receipt_id,
            sorted[p].receipt_id,
        ),
        sorted.len() == list.len(),
{
    let order = choose|order: Seq<usize>| #[trigger] sorted_by(list, sorted, order);
    assert(placed_before(list, order[p] as int, order[q] as int));
    assert(sorted[p] == list[order[p] as int]);
    assert(sorted[q] == list[order[q] as int]);
}

/// Reading the history and clearing it leaves nothing: every file that was read as a
/// receipt is named.
pub proof fn law_cleared_history_is_empty(
    files: Seq<HistoryFile>,
    receipts: Seq<Receipt>,
    i: int,
)
    requires
        newest_first(file_receipts(files), receipt_views(receipts)),
        files.len() <= usize::MAX,
        0 <= i < files.len(),
        receipt_file_name(files[i].name@),
        receipt_of(contributions(lines(files[i].text@)), files[i].name@) is Some,
    ensures
        clearable(receipts).contains(files[i].name@),
{
    let receipt = receipt_of(contributions(lines(files[i].text@)), files[i].name@)->0;
    let views = receipt_views(receipts);
    law_every_receipt_is_read(files, views, i, receipt);
    let p = choose|p: int| 0 <= p < views.len() && views[p] == receipt;
    assert(views[p] == receipts[p]@);
    law_clearing_names_every_receipt(receipts, p);
}

/// An id leads to a receipt whenever some receipt has it, and to the first of those.
pub proof fn law_ids_lead_to_the_first(receipts: Seq<Receipt>, id: Seq<char>, i: int, j: int)
    requires
        0 <= i < receipts.len(),
        receipts[i].receipt_id@ == id,
        receipt_at(receipts, id, j),
    ensures
        has_receipt(receipts, id),
        0 <= j <= i,
        receipts[j].receipt_id@ == id,
        forall|k: int| receipt_at(receipts, id, k) ==> k == j,
{
    assert forall|k: int| receipt_at(receipts, id, k) implies k == j by {
        if k < j {
            assert(receipts[k].receipt_id@ != id);
        }
        if j < k {
            assert(receipts[j].receipt_id@ != id);
        }
    }
}

// ---------------------------------------------------------------------------
// What the lines of a receipt amount to
// ---------------------------------------------------------------------------

/// Each line adds its part: an item, with or without a receipt around it, goes behind
/// the others; a malformed line is counted; a bare line's time counts if it is the
/// latest; the bytes of an item are added.
pub proof fn law_each_line_adds_its_part(
    list: Seq<ReceiptLineView>,
    item: ItemView,
    at: nat,
    header: HeaderView,
    summary: SummaryView,
)
    ensures
        line_items(list.push(ReceiptLineView::Item(item))) == line_items(list).push(item),
        line_items(list.push(ReceiptLineView::Legacy(item, at))) == line_items(list).push(item),
        line_items(list.push(ReceiptLineView::Header(header))) == line_items(list),
        line_items(list.push(ReceiptLineView::Summary(summary))) == line_items(list),
        line_items(list.push(ReceiptLineView::Malformed)) == line_items(list),
        line_items(list.push(ReceiptLineView::Blank)) == line_items(list),
        line_items(Seq::empty()).len() == 0,
        malformed_lines(list.push(ReceiptLineView::Malformed)) == malformed_lines(list) + 1,
        malformed_lines(list.push(ReceiptLineView::Blank)) == malformed_lines(list),
        malformed_lines(list.push(ReceiptLineView::Item(item))) == malformed_lines(list),
        malformed_lines(list.push(ReceiptLineView::Legacy(item, at))) == malformed_lines(list),
        malformed_lines(list.push(ReceiptLineView::Header(header))) == malformed_lines(list),
        malformed_lines(list.push(ReceiptLineView::Summary(summary))) == malformed_lines(list),
        malformed_lines(Seq::empty()) == 0,
        latest_legacy(list.push(ReceiptLineView::Legacy(item, at))) == (if at > latest_legacy(
            list,
        ) {
            at
        } else {
            latest_legacy(list)
        }),
        latest_legacy(list.push(ReceiptLineView::Item(item))) == latest_legacy(list),
        latest_legacy(list.push(ReceiptLineView::Header(header))) == latest_legacy(list),
        latest_legacy(list.push(ReceiptLineView::Summary(summary))) == latest_legacy(list),
        latest_legacy(list.push(ReceiptLineView::Malformed)) == latest_legacy(list),
        latest_legacy(list.push(ReceiptLineView::Blank)) == latest_legacy(list),
        latest_legacy(Seq::empty()) == 0,
{
    assert(list.push(ReceiptLineView::Item(item)).drop_last() =~= list);
    assert(list.push(ReceiptLineView::Legacy(item, at)).drop_last() =~= list);
    assert(list.push(ReceiptLineView::Header(header)).drop_last() =~= list);
    assert(list.push(ReceiptLineView::Summary(summary)).drop_last() =~= list);
    assert(list.push(ReceiptLineView::Malformed).drop_last() =~= list);
    assert(list.push(ReceiptLineView::Blank).drop_last() =~= list);
}

/// The bytes of a list of items are those of each, added up.
pub proof fn law_item_bytes_add_up(items: Seq<ItemView>, item: ItemView)
    ensures
        item_bytes(Seq::empty()) == 0,
        item_bytes(items.push(item)) == item_bytes(items) + item.estimated_bytes,
{
    assert(items.push(item).drop_last() =~= items);
}

/// Of several headers the last one counts, and likewise of several summaries.
pub proof fn law_the_last_header_counts(list: Seq<ReceiptLineView>)
    ensures
        last_header(list) matches Some(header) ==> exists|i: int|
            0 <= i < list.len() && #[trigger] list[i] == ReceiptLineView::Header(header)
                && forall|j: int| i < j < list.len() ==> !(#[trigger] list[j] is Header),
        last_header(list) is None ==> forall|j: int|
            0 <= j < list.len() ==> !(#[trigger] list[j] is Header),
        last_summary(list) matches Some(summary) ==> exists|i: int|
            0 <= i < list.len() && #[trigger] list[i] == ReceiptLineView::Summary(summary)
                && forall|j: int| i < j < list.len() ==> !(#[trigger] list[j] is Summary),
        last_summary(list) is None ==> forall|j: int|
            0 <= j < list.len() ==> !(#[trigger] list[j] is Summary),
    decreases list.len(),
{
    if list.len() > 0 {
        let front = list.drop_last();
        law_the_last_header_counts(front);
        if let ReceiptLineView::Header(header) = list.last() {
            assert(list[list.len() - 1] == ReceiptLineView::Header(header));
        } else if let Some(header) = last_header(front) {
            let i = choose|i: int|
                0 <= i < front.len() && #[trigger] front[i] == ReceiptLineView::Header(header)
                    && forall|j: int| i < j < front.len() ==> !(#[trigger] front[j] is Header);
            assert(list[i] == ReceiptLineView::Header(header));
            assert forall|j: int| i < j < list.len() implies !(#[trigger] list[j] is Header) by {
                if j < front.len() {
                    assert(!(front[j] is Header));
                }
            }
        } else {
            assert forall|j: int| 0 <= j < list.len() implies !(#[trigger] list[j] is Header) by {
                if j < front.len() {
                    assert(!(front[j] is Header));
                }
            }
        }
        if let ReceiptLineView::Summary(summary) = list.last() {
            assert(list[list.len() - 1] == ReceiptLineView::Summary(summary));
        } else if let Some(summary) = last_summary(front) {
            let i = choose|i: int|
                0 <= i < front.len() && #[trigger] front[i] == ReceiptLineView::Summary(summary)
                    && forall|j: int| i < j < front.len() ==> !(#[trigger] front[j] is Summary);
            assert(list[i] == ReceiptLineView::Summary(summary));
            assert forall|j: int| i < j < list.len() implies !(#[trigger] list[j] is Summary) by {
                if j < front.len() {
                    assert(!(front[j] is Summary));
                }
            }
        } else {
            assert forall|j: int| 0 <= j < list.len() implies !(#[trigger] list[j] is Summary) by {
                if j < front.len() {
                    assert(!(front[j] is Summary));
                }
            }
        }
    }
}

/// A receipt takes who it is from its header, is complete only by the word of its
/// summary, and says how many lines could not be read.
pub proof fn law_receipts_say_what_their_lines_say(
    list: Seq<ReceiptLineView>,
    file_name: Seq<char>,
    receipt: ReceiptView,
)
    requires
        receipt_of(list, file_name) == Some(receipt),
    ensures
        receipt.file_name == file_name,
        receipt.items == line_items(list),
        receipt.legacy <==> forall|j: int| 0 <= j < list.len() ==> !(#[trigger] list[j] is Header),
        last_header(list) matches Some(header) ==> receipt.receipt_id == header.receipt_id
            && receipt.started_at == header.started_at && receipt.root == header.root
            && receipt.estimated_bytes == header.estimated_bytes && receipt.free_before
            == header.free_before && receipt.summary == last_summary(list) && (receipt.complete
            <==> last_summary(list) is Some && last_summary(list)->0.complete),
        receipt.legacy ==> receipt.summary is None && receipt.root.len() == 0
            && receipt.free_before is None && (receipt.complete <==> malformed_lines(list) == 0)
            && receipt.receipt_id == without_extension(file_name),
        receipt.legacy && item_bytes(line_items(list)) <= u64::MAX ==> receipt.estimated_bytes
            == item_bytes(line_items(list)),
        receipt.legacy && latest_legacy(list) <= u128::MAX ==> receipt.started_at == latest_legacy(
            list,
        ),
        malformed_lines(list) == 0 ==> receipt.parse_warning is None,
        malformed_lines(list) > 0 ==> receipt.parse_warning == Some(
            "ignored "@ + decimal(malformed_lines(list)) + " malformed lines"@,
        ),
{
    law_the_last_header_counts(list);
}

/// A file is no receipt only if there is nothing in it: no header, no item and no
/// malformed line.
pub proof fn law_only_empty_files_hold_no_receipt(
    list: Seq<ReceiptLineView>,
    file_name: Seq<char>,
)
    ensures
        receipt_of(list, file_name) is None <==> last_header(list) is None && line_items(list).len()
            == 0 && malformed_lines(list) == 0,
{
}

/// The name of a file loses every `.jsonl` at its end, and nothing else.
pub proof fn law_names_lose_their_extension(name: Seq<char>)
    ensures
        without_extension(name + ".jsonl"@) == without_extension(name),
        !".jsonl"@.is_suffix_of(name) ==> without_extension(name) == name,
        !".jsonl"@.is_suffix_of(without_extension(name)),
        without_extension(name).is_prefix_of(name),
    decreases name.len(),
{
    reveal_strlit(".jsonl");
    let end = ".jsonl"@;
    assert(end.len() == 6);
    let longer = name + end;
    assert(longer.subrange(0, name.len() as int) =~= name);
    assert(longer.subrange(longer.len() - 6, longer.len() as int) =~= end);
    if name.len() >= 6 && end.is_suffix_of(name) {
        let shorter = name.subrange(0, name.len() - 6);
        law_names_lose_their_extension(shorter);
        let core = without_extension(name);
        assert(core =~= name.subrange(0, core.len() as int)) by {
            assert(core == shorter.subrange(0, core.len() as int));
        }
    } else {
        assert(name =~= name.subrange(0, name.len() as int));
    }
}

/// What a line contributes goes by its `kind`; a line without a kind that is known
/// counts by itself if it has a path. Anything else is malformed.
pub proof fn law_lines_are_told_apart_by_their_kind(object: Seq<JsonFieldView>)
    ensures
        ({
            let said = contribution(JsonLineView::Object(object));
            let kind = text_member(object, "kind"@);
            &&& kind == Some("header"@) && header_of(object) is Some ==> said
                == ReceiptLineView::Header(header_of(object)->0)
            &&& kind == Some("item"@) && item_of(object) is Some ==> said == ReceiptLineView::Item(
                item_of(object)->0,
            )
            &&& kind == Some("summary"@) && summary_of(object) is Some ==> said
                == ReceiptLineView::Summary(summary_of(object)->0)
            &&& kind == Some("header"@) && header_of(object) is None ==> said is Malformed
            &&& kind == Some("item"@) && item_of(object) is None ==> said is Malformed
            &&& kind == Some("summary"@) && summary_of(object) is None ==> said is Malformed
            &&& kind != Some("header"@) && kind != Some("item"@) && kind != Some("summary"@)
                && member(object, "path"@) is Some ==> said is Legacy && said->Legacy_0
                == legacy_item(object)
            &&& kind != Some("header"@) && kind != Some("item"@) && kind != Some("summary"@)
                && member(object, "path"@) is None ==> said is Malformed
        }),
{
    lemma_kinds_differ();
}

/// A line that is no object is malformed, unless it is blank.
pub proof fn law_other_lines_are_malformed(text: Seq<char>)
    ensures
        blank(text) ==> line_contribution(text) is Blank,
        !blank(text) && !(parsed_json(text) is Object) ==> line_contribution(text) is Malformed,
{
}

/// A header is read from the members that are called as its parts are, and only if
/// all of them are there.
pub proof fn law_headers_are_read_by_name(object: Seq<JsonFieldView>)
    ensures
        header_of(object) matches Some(header) ==> {
            &&& unsigned_member(object, "schema"@) == Some(header.schema as u64)
            &&& text_member(object, "kind"@) == Some(header.kind)
            &&& text_member(object, "receipt_id"@) == Some(header.receipt_id)
            &&& unsigned_member(object, "started_at"@) == Some(header.started_at as u64)
            &&& text_member(object, "root"@) == Some(header.root)
            &&& unsigned_member(object, "estimated_bytes"@) == Some(header.estimated_bytes)
            &&& optional_unsigned(object, "free_before"@) == Some(header.free_before)
        },
        header_of(object) is Some <==> {
            &&& unsigned_member(object, "schema"@) is Some
            &&& unsigned_member(object, "schema"@)->0 <= u32::MAX
            &&& text_member(object, "kind"@) is Some
            &&& text_member(object, "receipt_id"@) is Some
            &&& unsigned_member(object, "started_at"@) is Some
            &&& text_member(object, "root"@) is Some
            &&& unsigned_member(object, "estimated_bytes"@) is Some
            &&& optional_unsigned(object, "free_before"@) is Some
        },
{
}

/// An item is read from the members that are called as its parts are, and only if
/// all of them are there.
pub proof fn law_items_are_read_by_name(object: Seq<JsonFieldView>)
    ensures
        item_of(object) matches Some(item) ==> {
            &&& unsigned_member(object, "schema"@) == Some(item.schema as u64)
            &&& text_member(object, "kind"@) == Some(item.kind)
            &&& text_member(object, "path"@) == Some(item.path)
            &&& text_member(object, "rule"@) == Some(item.rule)
            &&& text_member(object, "tier"@) == Some(item.tier)
            &&& text_member(object, "label"@) == Some(item.label)
            &&& text_member(object, "regen"@) == Some(item.regen)
            &&& unsigned_member(object, "estimated_bytes"@) == Some(item.estimated_bytes)
            &&& text_member(object, "status"@) == Some(item.status)
            &&& text_member(object, "reason"@) == Some(item.reason)
        },
        item_of(object) is Some <==> {
            &&& unsigned_member(object, "schema"@) is Some
            &&& unsigned_member(object, "schema"@)->0 <= u32::MAX
            &&& text_member(object, "kind"@) is Some
            &&& text_member(object, "path"@) is Some
            &&& text_member(object, "rule"@) is Some
            &&& text_member(object, "tier"@) is Some
            &&& text_member(object, "label"@) is Some
            &&& text_member(object, "regen"@) is Some
            &&& unsigned_member(object, "estimated_bytes"@) is Some
            &&& text_member(object, "status"@) is Some
            &&& text_member(object, "reason"@) is Some
        },
{
}

/// A summary is read from the members that are called as its parts are.
pub proof fn law_summaries_are_read_by_name(object: Seq<JsonFieldView>)
    ensures
        summary_of(object) matches Some(summary) ==> {
            &&& unsigned_member(object, "schema"@) == Some(summary.schema as u64)
            &&& text_member(object, "kind"@) == Some(summary.kind)
            &&& unsigned_member(object, "finished_at"@) == Some(summary.finished_at as u64)
            &&& unsigned_member(object, "removed_count"@) == Some(summary.removed_count as u64)
            &&& unsigned_member(object, "skipped_count"@) == Some(summary.skipped_count as u64)
            &&& unsigned_member(object, "estimated_removed_bytes"@) == Some(
                summary.estimated_removed_bytes,
            )
            &&& optional_unsigned(object, "free_after"@) == Some(summary.free_after)
            &&& optional_integer(object, "signed_free_space_change"@) == Some(
                summary.signed_free_space_change,
            )
            &&& bool_member(object, "complete"@) == Some(summary.complete)
        },
        summary_of(object) is Some <==> {
            &&& unsigned_member(object, "schema"@) is Some
            &&& unsigned_member(object, "schema"@)->0 <= u32::MAX
            &&& text_member(object, "kind"@) is Some
            &&& unsigned_member(object, "finished_at"@) is Some
            &&& unsigned_member(object, "removed_count"@) is Some
            &&& unsigned_member(object, "removed_count"@)->0 <= usize::MAX
            &&& unsigned_member(object, "skipped_count"@) is Some
            &&& unsigned_member(object, "skipped_count"@)->0 <= usize::MAX
            &&& unsigned_member(object, "estimated_removed_bytes"@) is Some
            &&& optional_unsigned(object, "free_after"@) is Some
            &&& optional_integer(object, "signed_free_space_change"@) is Some
            &&& bool_member(object, "complete"@) is Some
        },
{
}

/// A bare line stands for something that was removed; what it does not say is empty
/// or zero.
pub proof fn law_bare_lines_were_removed(object: Seq<JsonFieldView>)
    ensures
        ({
            let item = legacy_item(object);
            &&& item.kind == "item"@
            &&& item.status == "removed"@
            &&& item.reason.len() == 0
            &&& item.label.len() == 0
            &&& item.schema == 0
            &&& text_member(object, "path"@) matches Some(text) ==> item.path == text
            &&& text_member(object, "path"@) is None ==> item.path.len() == 0
            &&& text_member(object, "rule"@) matches Some(text) ==> item.rule == text
            &&& text_member(object, "rule"@) is None ==> item.rule.len() == 0
            &&& text_member(object, "tier"@) matches Some(text) ==> item.tier == text
            &&& text_member(object, "tier"@) is None ==> item.tier.len() == 0
            &&& text_member(object, "regen"@) matches Some(text) ==> item.regen == text
            &&& text_member(object, "regen"@) is None ==> item.regen.len() == 0
            &&& unsigned_member(object, "bytes"@) matches Some(n) ==> item.estimated_bytes == n
            &&& unsigned_member(object, "bytes"@) is None ==> item.estimated_bytes == 0
            &&& double_member(object, "ts"@) matches Some(bits) ==> legacy_time(object)
                == thousandfold(bits)
            &&& double_member(object, "ts"@) is None ==> legacy_time(object) == 0
        }),
{
}

/// Every part of a header is written under its name.
pub proof fn law_headers_are_written_by_name(header: HeaderView)
    ensures
        ({
            let list = header_members(header);
            &&& list.contains(("schema"@, WrittenView::Natural(header.schema as u128)))
            &&& list.contains(("kind"@, WrittenView::Text(header.kind)))
            &&& list.contains(("receipt_id"@, WrittenView::Text(header.receipt_id)))
            &&& list.contains(("started_at"@, WrittenView::Natural(header.started_at)))
            &&& list.contains(("root"@, WrittenView::Text(header.root)))
            &&& list.contains(
                ("estimated_bytes"@, WrittenView::Natural(header.estimated_bytes as u128)),
            )
            &&& list.len() == 7
            &&& header.free_before matches Some(n) ==> list.contains(
                ("free_before"@, WrittenView::Natural(n as u128)),
            )
            &&& header.free_before is None ==> list.contains(("free_before"@, WrittenView::Null))
        }),
{
    let list = header_members(header);
    assert(list[0] == ("schema"@, WrittenView::Natural(header.schema as u128)));
    assert(list[1] == ("kind"@, WrittenView::Text(header.kind)));
    assert(list[2] == ("receipt_id"@, WrittenView::Text(header.receipt_id)));
    assert(list[3] == ("started_at"@, WrittenView::Natural(header.started_at)));
    assert(list[4] == ("root"@, WrittenView::Text(header.root)));
    assert(list[5] == ("estimated_bytes"@, WrittenView::Natural(header.estimated_bytes as u128)));
    assert(list[6] == ("free_before"@, optional_written(header.free_before)));
}

/// Every part of an item is written under its name.
pub proof fn law_items_are_written_by_name(item: ItemView)
    ensures
        ({
            let list = item_members(item);
            &&& list.contains(("schema"@, WrittenView::Natural(item.schema as u128)))
            &&& list.contains(("kind"@, WrittenView::Text(item.kind)))
            &&& list.contains(("path"@, WrittenView::Text(item.path)))
            &&& list.contains(("rule"@, WrittenView::Text(item.rule)))
            &&& list.contains(("tier"@, WrittenView::Text(item.tier)))
            &&& list.contains(("label"@, WrittenView::Text(item.label)))
            &&& list.contains(("regen"@, WrittenView::Text(item.regen)))
            &&& list.contains(
                ("estimated_bytes"@, WrittenView::Natural(item.estimated_bytes as u128)),
            )
            &&& list.contains(("status"@, WrittenView::Text(item.status)))
            &&& list.contains(("reason"@, WrittenView::Text(item.reason)))
            &&& list.len() == 10
        }),
{
    let list = item_members(item);
    assert(list[0] == ("schema"@, WrittenView::Natural(item.schema as u128)));
    assert(list[1] == ("kind"@, WrittenView::Text(item.kind)));
    assert(list[2] == ("path"@, WrittenView::Text(item.path)));
    assert(list[3] == ("rule"@, WrittenView::Text(item.rule)));
    assert(list[4] == ("tier"@, WrittenView::Text(item.tier)));
    assert(list[5] == ("label"@, WrittenView::Text(item.label)));
    assert(list[6] == ("regen"@, WrittenView::Text(item.regen)));
    assert(list[7] == ("estimated_bytes"@, WrittenView::Natural(item.estimated_bytes as u128)));
    assert(list[8] == ("status"@, WrittenView::Text(item.status)));
    assert(list[9] == ("reason"@, WrittenView::Text(item.reason)));
}

/// Every part of a summary is written under its name.
pub proof fn law_summaries_are_written_by_name(summary: SummaryView)
    ensures
        ({
            let list = summary_members(summary);
            &&& list.contains(("schema"@, WrittenView::Natural(summary.schema as u128)))
            &&& list.contains(("kind"@, WrittenView::Text(summary.kind)))
            &&& list.contains(("finished_at"@, WrittenView::Natural(summary.finished_at)))
            &&& list.contains(
                ("removed_count"@, WrittenView::Natural(summary.removed_count as u128)),
            )
            &&& list.contains(
                ("skipped_count"@, WrittenView::Natural(summary.skipped_count as u128)),
            )
            &&& list.contains(
                (
                    "estimated_removed_bytes"@,
                    WrittenView::Natural(summary.estimated_removed_bytes as u128),
                ),
            )
            &&& list.contains(("complete"@, WrittenView::Bool(summary.complete)))
            &&& list.len() == 9
            &&& summary.free_after matches Some(n) ==> list.contains(
                ("free_after"@, WrittenView::Natural(n as u128)),
            )
            &&& summary.free_after is None ==> list.contains(("free_after"@, WrittenView::Null))
            &&& summary.signed_free_space_change matches Some(n) ==> list.contains(
                ("signed_free_space_change"@, WrittenView::Integer(n)),
            )
            &&& summary.signed_free_space_change is None ==> list.contains(
                ("signed_free_space_change"@, WrittenView::Null),
            )
        }),
{
    let list = summary_members(summary);
    assert(list[0] == ("schema"@, WrittenView::Natural(summary.schema as u128)));
    assert(list[1] == ("kind"@, WrittenView::Text(summary.kind)));
    assert(list[2] == ("finished_at"@, WrittenView::Natural(summary.finished_at)));
    assert(list[3] == ("removed_count"@, WrittenView::Natural(summary.removed_count as u128)));
    assert(list[4] == ("skipped_count"@, WrittenView::Natural(summary.skipped_count as u128)));
    assert(list[5] == (
        "estimated_removed_bytes"@,
        WrittenView::Natural(summary.estimated_removed_bytes as u128),
    ));
    assert(list[6] == ("free_after"@, optional_written(summary.free_after)));
    assert(list[7].0 == "signed_free_space_change"@);
    assert(list.contains(list[7]));
    assert(list[8] == ("complete"@, WrittenView::Bool(summary.complete)));
}

// ---------------------------------------------------------------------------
// Figures
// ---------------------------------------------------------------------------

/// What was gained is what has to be added to the space before to get the space
/// after; where one of them is not known, neither is the gain.
pub proof fn law_gain_is_after_less_before(before: Option<u64>, after: Option<u64>)
    ensures
        before is Some && after is Some ==> space_gained(before, after) is Some && before->0
            + space_gained(before, after)->0 == after->0,
        before is None || after is None ==> space_gained(before, after) is None,
{
}

/// A column of the table that `df` writes is in kilobytes, and is taken from the
/// last line; a figure beyond 64 bits is the largest there is.
pub proof fn law_columns_are_kilobytes(
    output: Seq<char>,
    last: Seq<char>,
    column: int,
    kilobytes: u64,
)
    requires
        lines(output).len() > 0,
        lines(output)[lines(output).len() - 1] == last,
    ensures
        0 <= column < words(last).len() && unsigned(words(last)[column]) == Some(kilobytes)
            && kilobytes * 1024 <= u64::MAX ==> df_column(output, column) is Some && df_column(
            output,
            column,
        )->0 == 1024 * kilobytes,
        0 <= column < words(last).len() && unsigned(words(last)[column]) == Some(kilobytes)
            && kilobytes * 1024 > u64::MAX ==> df_column(output, column) == Some(u64::MAX),
        column >= words(last).len() ==> df_column(output, column) is None,
        0 <= column < words(last).len() && unsigned(words(last)[column]) is None ==> df_column(
            output,
            column,
        ) is None,
{
}

/// The time in milliseconds is the time of the clock without what is left of a
/// millisecond.
pub proof fn law_milliseconds_are_whole(seconds: u64, nanos: u32, r: u128)
    requires
        call_ensures(now_millis, (Some((seconds, nanos)),), r),
    ensures
        1_000_000 * r <= 1_000_000_000 * seconds + nanos < 1_000_000 * (r + 1),
{
}

/// What is free is in the fourth column of what `df` writes.
pub proof fn law_free_space_is_the_fourth_column(output: &str, r: Option<u64>)
    requires
        call_ensures(free_space, (output,), r),
    ensures
        r == df_column(output@, 3),
{
}

/// What is handed out for clearing names the file of every receipt, and nothing that
/// is no receipt.
pub proof fn law_everything_is_handed_out_for_clearing(
    receipts: &Vec<Receipt>,
    r: Vec<String>,
    name: Seq<char>,
)
    requires
        call_ensures(clear_history, (receipts,), r),
    ensures
        texts(r@).contains(name) <==> receipt_file_name(name) && exists|i: int|
            0 <= i < receipts@.len() && (#[trigger] receipts@[i]).file_name@ == name,
{
    let all = receipts@;
    if texts(r@).contains(name) {
        let k = choose|k: int| 0 <= k < texts(r@).len() && texts(r@)[k] == name;
        law_only_receipts_are_cleared(all);
        assert(receipt_file_name(clearable(all)[k]));
        let i = lemma_cleared_is_of_a_receipt(all, k);
        assert(all[i].file_name@ == name);
    }
    if receipt_file_name(name) && exists|i: int|
        0 <= i < all.len() && (#[trigger] all[i]).file_name@ == name {
        let i = choose|i: int| 0 <= i < all.len() && (#[trigger] all[i]).file_name@ == name;
        law_clearing_names_every_receipt(all, i);
    }
}

proof fn lemma_cleared_is_of_a_receipt(receipts: Seq<Receipt>, k: int) -> (i: int)
    requires
        0 <= k < clearable(receipts).len(),
    ensures
        0 <= i < receipts.len(),
        receipts[i].file_name@ == clearable(receipts)[k],
    decreases receipts.len(),
{
    let front = receipts.drop_last();
    if k < clearable(front).len() {
        let i = lemma_cleared_is_of_a_receipt(front, k);
        assert(front[i] == receipts[i]);
        i
    } else {
        receipts.len() - 1
    }
}

} // verus!
