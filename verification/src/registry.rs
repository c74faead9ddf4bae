//! Registry-side data handling: the configured registry address, splitting
//! image paths into namespace and repository, and grouping a catalog by
//! namespace while keeping fetch order.

use vstd::prelude::*;
use vstd::string::StringExecFns;
use vstd::string::StrSliceExecFns;
use crate::strutil::{
    find_from,
    trimmed_end,
    find_char,
    trim_end_char,
    concat2,
    take_chars,
    truncate_chars,
    join_lines,
    join_with_newlines,
};
use crate::ui::CompatibilityRow;
use serde_json::Value;

verus! {

/// The registry base address every fetch is built from.  It is an explicit
/// value handed to the transport, not ambient process state.
pub struct RegistryConfig {
    pub url: String,
}

/// The address as stored: trailing slashes removed, then the API suffix.
pub open spec fn normalized_url(s: Seq<char>) -> Seq<char> {
    trimmed_end(s, '/') + "/v2/"@
}

/// Store `url` in `config`, normalized to end in the API suffix.
pub fn set_registry_url(config: &mut RegistryConfig, url: &str)
    ensures
        final(config).url@ == normalized_url(url@),
{
    let trimmed = trim_end_char(url, '/');
    config.url = concat2(trimmed.as_str(), "/v2/");
}

/// The currently configured registry address.
pub fn get_registry_url(config: &RegistryConfig) -> (r: String)
    ensures
        r@ == config.url@,
{
    config.url.clone()
}

/// A registry manifest document, fetched as raw text and inspected through
/// the history parser; no field of it is read directly.
pub struct Manifest {}

/// An image path split at the first separator: the namespace and the rest.
/// A path without a separator is all namespace.
pub open spec fn split_depths(s: Seq<char>) -> (Seq<char>, Seq<char>) {
    match find_from(s, '/', 0) {
        Some(i) => (s.subrange(0, i), s.subrange(i + 1, s.len() as int)),
        None => (s, Seq::empty()),
    }
}

/// Split an image path into its namespace part and its repository part.
pub fn split_image_depths(image_name: &str) -> (r: (String, String))
    ensures
        r.0@ == split_depths(image_name@).0,
        r.1@ == split_depths(image_name@).1,
{
    let len = image_name.unicode_len();
    match find_char(image_name, '/') {
        Some(i) => {
            let d1 = String::from_str(image_name.substring_char(0, i));
            let d2 = String::from_str(image_name.substring_char(i + 1, len));
            (d1, d2)
        },
        None => (String::from_str(image_name), String::new()),
    }
}

/// Index of the first group whose key is `key`, searching from `i` on.
pub open spec fn key_index_from(
    groups: Seq<(Seq<char>, Seq<Seq<char>>)>,
    key: Seq<char>,
    i: int,
) -> Option<int>
    decreases groups.len() - i,
{
    if i < 0 || i >= groups.len() {
        None
    } else if groups[i].0 == key {
        Some(i)
    } else {
        key_index_from(groups, key, i + 1)
    }
}

proof fn lemma_key_index_some(
    groups: Seq<(Seq<char>, Seq<Seq<char>>)>,
    key: Seq<char>,
    i: int,
    j: int,
)
    requires
        key_index_from(groups, key, i) == Some(j),
    ensures
        i <= j < groups.len(),
        groups[j].0 == key,
    decreases groups.len() - i,
{
    if !(i < 0 || i >= groups.len()) && groups[i].0 != key {
        lemma_key_index_some(groups, key, i + 1, j);
    }
}

/// One grouping step: append `d2` to the first group keyed `d1`, or open a
/// new group at the end.
pub open spec fn group_insert(
    groups: Seq<(Seq<char>, Seq<Seq<char>>)>,
    d1: Seq<char>,
    d2: Seq<char>,
) -> Seq<(Seq<char>, Seq<Seq<char>>)> {
    match key_index_from(groups, d1, 0) {
        Some(i) => groups.update(i, (d1, groups[i].1.push(d2))),
        None => groups.push((d1, seq![d2])),
    }
}

/// The catalog grouped by namespace, in order of first appearance, each
/// group listing repository parts in catalog order.
pub open spec fn group_by_depth(images: Seq<Seq<char>>) -> Seq<(Seq<char>, Seq<Seq<char>>)>
    decreases images.len(),
{
    if images.len() == 0 {
        Seq::empty()
    } else {
        let split = split_depths(images.last());
        group_insert(group_by_depth(images.drop_last()), split.0, split.1)
    }
}

/// The mathematical content of a built group list.
pub open spec fn groups_view(g: Seq<(String, Vec<String>)>) -> Seq<(Seq<char>, Seq<Seq<char>>)> {
    g.map_values(|e: (String, Vec<String>)| (e.0@, e.1@.map_values(|t: String| t@)))
}

/// Group the catalog's image paths by their namespace, keeping fetch order
/// both of the namespaces and of the repositories inside each.
pub fn group_images_by_depth(images: Vec<String>) -> (r: Vec<(String, Vec<String>)>)
    ensures
        groups_view(r@) == group_by_depth(images@.map_values(|s: String| s@)),
{
    let ghost model: Seq<Seq<char>> = images@.map_values(|s: String| s@);
    let mut r: Vec<(String, Vec<String>)> = Vec::new();
    let mut i: usize = 0;
    proof {
        assert(groups_view(r@) =~= group_by_depth(model.subrange(0, 0)));
    }
    while i < images.len()
        invariant
            i <= images.len(),
            model == images@.map_values(|s: String| s@),
            model.len() == images@.len(),
            groups_view(r@) == group_by_depth(model.subrange(0, i as int)),
        decreases images.len() - i,
    {
        let image: &String = &images[i];
        let (d1, d2) = split_image_depths(image.as_str());
        let ghost pre_groups = groups_view(r@);
        let mut j: usize = 0;
        let mut found: bool = false;
        while j < r.len() && !found
            invariant
                j <= r.len(),
                groups_view(r@) == pre_groups,
                pre_groups.len() == r@.len(),
                !found ==> key_index_from(pre_groups, d1@, 0) == key_index_from(
                    pre_groups,
                    d1@,
                    j as int,
                ),
                found ==> j < r.len() && key_index_from(pre_groups, d1@, 0) == Some(j as int),
            decreases r.len() - j + (if found {
                0int
            } else {
                1int
            }),
        {
            let same: bool = r[j].0 == d1;
            proof {
                assert(pre_groups[j as int].0 == r@[j as int].0@);
            }
            if same {
                found = true;
            } else {
                j = j + 1;
            }
        }
        if found {
            let ghost pre_r = r@;
            let mut entry = r.remove(j);
            entry.1.push(d2);
            r.insert(j, entry);
            proof {
                let target = group_insert(pre_groups, d1@, d2@);
                lemma_key_index_some(pre_groups, d1@, 0, j as int);
                assert(r@.len() == pre_r.len());
                assert forall|k: int| 0 <= k < r@.len() implies #[trigger] groups_view(r@)[k]
                    == target[k] by {
                    if k == j as int {
                        assert(r@[k].0 == pre_r[k].0);
                        assert(r@[k].1@ == pre_r[k].1@.push(d2));
                        assert(groups_view(r@)[k].1 =~~= target[k].1);
                    } else {
                        assert(r@[k] == pre_r[k]);
                    }
                }
                assert(groups_view(r@) =~~= target);
            }
        } else {
            proof {
                assert(key_index_from(pre_groups, d1@, r@.len() as int) is None);
            }
            let ghost pre_r = r@;
            let mut tags: Vec<String> = Vec::new();
            tags.push(d2);
            r.push((d1, tags));
            proof {
                let target = group_insert(pre_groups, d1@, d2@);
                assert forall|k: int| 0 <= k < r@.len() implies #[trigger] groups_view(r@)[k]
                    == target[k] by {
                    if k == pre_r.len() as int {
                        assert(r@[k].0 == d1);
                        assert(r@[k].1@ == Seq::<String>::empty().push(d2));
                        assert(groups_view(r@)[k].1 =~~= target[k].1);
                    } else {
                        assert(r@[k] == pre_r[k]);
                    }
                }
                assert(groups_view(r@) =~~= target);
            }
        }
        proof {
            let cur = model.subrange(0, i + 1);
            assert(cur.drop_last() =~= model.subrange(0, i as int));
            assert(cur.last() == model[i as int]);
            assert(model[i as int] == images@[i as int]@);
        }
        i = i + 1;
    }
    proof {
        assert(model.subrange(0, model.len() as int) =~= model);
    }
    r
}


// ---------------------------------------------------------------------------
// The trusted JSON boundary.  A manifest arrives as plain text; what the
// JSON crate computes from that text is given names, and the wrappers'
// contracts fix their results by those names.
// ---------------------------------------------------------------------------

/// Whether `s` is valid JSON, as serde_json::from_str decides it.
pub uninterp spec fn parse_ok(s: Seq<char>) -> bool;

/// Per history entry of the manifest text `s`, in order: its inner
/// document's text when the entry holds a string `v1Compatibility` member,
/// absent otherwise; empty when the manifest has no history array.
pub uninterp spec fn history_texts_of(s: Seq<char>) -> Seq<Option<Seq<char>>>;

/// The manifest text `s` re-serialized as pretty-printed JSON.
pub uninterp spec fn pretty_of(s: Seq<char>) -> Seq<char>;

/// The displayed members of an inner document text `s`: id, parent, os and
/// created when present as strings; the `container_config.Cmd` items, each
/// present exactly when it is a string; and the `config` member serialized
/// compactly.
pub uninterp spec fn fields_of(s: Seq<char>) -> (
    Option<Seq<char>>,
    Option<Seq<char>>,
    Option<Seq<char>>,
    Option<Seq<char>>,
    Option<Seq<Option<Seq<char>>>>,
    Option<Seq<char>>,
);

/// What the parser reads of a manifest document, as plain values: one
/// optional inner text per history entry, and the whole document
/// pretty-printed.
pub struct ManifestView {
    pub entries: Vec<Option<String>>,
    pub pretty: String,
}

/// An optional text's content.
pub open spec fn opt_view(o: Option<String>) -> Option<Seq<char>> {
    match o {
        Some(s) => Some(s@),
        None => None,
    }
}

/// The mathematical content of an entry list.
pub open spec fn entries_view(entries: Seq<Option<String>>) -> Seq<Option<Seq<char>>> {
    entries.map_values(|o: Option<String>| opt_view(o))
}

/// Relies on serde_json::from_str, Value::get, Value::as_array,
/// Value::as_str and serde_json::to_string_pretty: parses the manifest
/// text — an error exactly when it is not valid JSON — and reads out the
/// history entries' inner texts and the pretty-printed whole.  An absent or
/// non-array history member yields no entries.
#[verifier::external_body]
pub(crate) fn read_manifest(text: &str) -> (r: Option<ManifestView>)
    ensures
        r is Some <==> parse_ok(text@),
        r matches Some(m) ==> entries_view(m.entries@) == history_texts_of(text@) && m.pretty@
            == pretty_of(text@),
{
    let v: Value = serde_json::from_str(text).ok()?;
    let entries = match v.get("history").and_then(Value::as_array) {
        Some(a) => a
            .iter()
            .map(|e| e.get("v1Compatibility").and_then(Value::as_str).map(str::to_string))
            .collect(),
        None => Vec::new(),
    };
    let pretty = serde_json::to_string_pretty(&v).unwrap_or_default();
    Some(ManifestView { entries, pretty })
}

// ---------------------------------------------------------------------------
// The manifest-history parser.
// ---------------------------------------------------------------------------

/// The plain fields read from one history entry's inner document; absent or
/// differently-typed members are recorded as absent.
pub struct RawHistoryFields {
    pub id: Option<String>,
    pub parent: Option<String>,
    pub os: Option<String>,
    pub created: Option<String>,
    pub cmd_items: Option<Vec<Option<String>>>,
    pub config: Option<String>,
}

/// The mathematical content of the raw fields.
pub open spec fn raw_fields_model(f: RawHistoryFields) -> (
    Option<Seq<char>>,
    Option<Seq<char>>,
    Option<Seq<char>>,
    Option<Seq<char>>,
    Option<Seq<Option<Seq<char>>>>,
    Option<Seq<char>>,
) {
    (
        opt_view(f.id),
        opt_view(f.parent),
        opt_view(f.os),
        opt_view(f.created),
        match f.cmd_items {
            Some(v) => Some(entries_view(v@)),
            None => None,
        },
        opt_view(f.config),
    )
}

/// Relies on serde_json::from_str, Value::get, Value::as_str, Value::as_array
/// and Value's Display: parses one inner document — an error exactly when
/// its text is not valid JSON — and reads out its displayed members.
#[verifier::external_body]
pub(crate) fn read_fields(text: &str) -> (r: Option<RawHistoryFields>)
    ensures
        r is Some <==> parse_ok(text@),
        r matches Some(f) ==> raw_fields_model(f) == fields_of(text@),
{
    let v: Value = serde_json::from_str(text).ok()?;
    Some(RawHistoryFields {
        id: v.get("id").and_then(Value::as_str).map(str::to_string),
        parent: v.get("parent").and_then(Value::as_str).map(str::to_string),
        os: v.get("os").and_then(Value::as_str).map(str::to_string),
        created: v.get("created").and_then(Value::as_str).map(str::to_string),
        cmd_items: v.get("container_config").and_then(|c| c.get("Cmd")).and_then(Value::as_array)
            .map(|a| a.iter().map(|e| e.as_str().map(str::to_string)).collect()),
        config: v.get("config").map(|c| c.to_string()),
    })
}

/// A present text, or the empty text.
pub open spec fn opt_or_empty(o: Option<Seq<char>>) -> Seq<char> {
    match o {
        Some(s) => s,
        None => Seq::empty(),
    }
}

/// The present items, in order, as texts.
pub open spec fn present_items(items: Seq<Option<String>>) -> Seq<Seq<char>>
    decreases items.len(),
{
    if items.len() == 0 {
        Seq::empty()
    } else {
        let rest = present_items(items.drop_last());
        match items.last() {
            Some(s) => rest.push(s@),
            None => rest,
        }
    }
}

/// The present texts, in order.
pub open spec fn present_texts(items: Seq<Option<Seq<char>>>) -> Seq<Seq<char>>
    decreases items.len(),
{
    if items.len() == 0 {
        Seq::empty()
    } else {
        let rest = present_texts(items.drop_last());
        match items.last() {
            Some(s) => rest.push(s),
            None => rest,
        }
    }
}

proof fn lemma_present_texts_view(items: Seq<Option<String>>)
    ensures
        present_texts(entries_view(items)) == present_items(items),
    decreases items.len(),
{
    if items.len() == 0 {
        assert(entries_view(items) =~= Seq::<Option<Seq<char>>>::empty());
    } else {
        lemma_present_texts_view(items.drop_last());
        assert(entries_view(items).drop_last() =~= entries_view(items.drop_last()));
        assert(entries_view(items).last() == opt_view(items.last()));
    }
}

/// The mathematical content of a compatibility row.
pub open spec fn row_model(r: CompatibilityRow) -> (
    Seq<char>,
    Seq<char>,
    Seq<char>,
    Seq<char>,
    Seq<char>,
    Seq<char>,
) {
    (r.id@, r.parent@, r.os@, r.created@, r.cmd@, r.config@)
}

/// The row an inner document's fields display as: identifiers shortened to
/// their first eight characters, absent texts empty, and the command's
/// string items joined with newlines.
pub open spec fn row_from_fields(
    f: (
        Option<Seq<char>>,
        Option<Seq<char>>,
        Option<Seq<char>>,
        Option<Seq<char>>,
        Option<Seq<Option<Seq<char>>>>,
        Option<Seq<char>>,
    ),
) -> (Seq<char>, Seq<char>, Seq<char>, Seq<char>, Seq<char>, Seq<char>) {
    (
        take_chars(opt_or_empty(f.0), 8),
        take_chars(opt_or_empty(f.1), 8),
        opt_or_empty(f.2),
        opt_or_empty(f.3),
        match f.4 {
            Some(items) => join_lines(present_texts(items)),
            None => Seq::empty(),
        },
        opt_or_empty(f.5),
    )
}

/// The present strings of `items`, in order.
#[verifier::loop_isolation(false)]
pub fn present_strings(items: &Vec<Option<String>>) -> (r: Vec<String>)
    ensures
        r@.map_values(|s: String| s@) == present_items(items@),
{
    let mut r: Vec<String> = Vec::new();
    let mut i: usize = 0;
    proof {
        assert(r@.map_values(|s: String| s@) =~= present_items(items@.subrange(0, 0)));
    }
    while i < items.len()
        invariant
            i <= items.len(),
            r@.map_values(|s: String| s@) == present_items(items@.subrange(0, i as int)),
        decreases items.len() - i,
    {
        proof {
            let cur = items@.subrange(0, i + 1);
            assert(cur.drop_last() =~= items@.subrange(0, i as int));
            assert(cur.last() == items@[i as int]);
        }
        let ghost pre = r@;
        match &items[i] {
            Some(s) => {
                r.push(s.clone());
                proof {
                    assert(r@.map_values(|s: String| s@) =~= pre.map_values(
                        |s: String| s@,
                    ).push(items@[i as int].unwrap()@));
                }
            },
            None => {},
        }
        i = i + 1;
    }
    proof {
        assert(items@.subrange(0, items@.len() as int) =~= items@);
    }
    r
}

/// Shape raw history fields into the row they display as.
pub fn build_row(f: RawHistoryFields) -> (r: CompatibilityRow)
    ensures
        row_model(r) == row_from_fields(raw_fields_model(f)),
{
    let id = match &f.id {
        Some(s) => truncate_chars(s.as_str(), 8),
        None => String::new(),
    };
    let parent = match &f.parent {
        Some(s) => truncate_chars(s.as_str(), 8),
        None => String::new(),
    };
    let os = match f.os {
        Some(s) => s,
        None => String::new(),
    };
    let created = match f.created {
        Some(s) => s,
        None => String::new(),
    };
    let cmd = match &f.cmd_items {
        Some(v) => {
            proof {
                lemma_present_texts_view(v@);
            }
            let present = present_strings(v);
            join_with_newlines(&present)
        },
        None => String::new(),
    };
    let config = match f.config {
        Some(s) => s,
        None => String::new(),
    };
    CompatibilityRow { id, parent, os, created, cmd, config }
}

/// What became of one history entry: a displayable row, or skipped as
/// malformed.
pub enum HistoryOutcome {
    Parsed(CompatibilityRow),
    Skipped,
}

/// The row an outcome carries, if any.
pub open spec fn outcome_model(o: HistoryOutcome) -> Option<
    (Seq<char>, Seq<char>, Seq<char>, Seq<char>, Seq<char>, Seq<char>),
> {
    match o {
        HistoryOutcome::Parsed(r) => Some(row_model(r)),
        HistoryOutcome::Skipped => None,
    }
}

/// What one history entry must yield: absent or unparseable inner texts are
/// skipped; a parseable one displays as the row its fields determine.
pub open spec fn entry_outcome(e: Option<Seq<char>>) -> Option<
    (Seq<char>, Seq<char>, Seq<char>, Seq<char>, Seq<char>, Seq<char>),
> {
    match e {
        Some(t) => if parse_ok(t) {
            Some(row_from_fields(fields_of(t)))
        } else {
            None
        },
        None => None,
    }
}

/// The rows of all parseable entries, in order.
pub open spec fn rows_of_entries(entries: Seq<Option<Seq<char>>>) -> Seq<
    (Seq<char>, Seq<char>, Seq<char>, Seq<char>, Seq<char>, Seq<char>),
>
    decreases entries.len(),
{
    if entries.len() == 0 {
        Seq::empty()
    } else {
        let rest = rows_of_entries(entries.drop_last());
        match entry_outcome(entries.last()) {
            Some(row) => rest.push(row),
            None => rest,
        }
    }
}

/// The rows of the parsed outcomes, in order, skipping the rest.
pub open spec fn parsed_rows(outcomes: Seq<HistoryOutcome>) -> Seq<
    (Seq<char>, Seq<char>, Seq<char>, Seq<char>, Seq<char>, Seq<char>),
>
    decreases outcomes.len(),
{
    if outcomes.len() == 0 {
        Seq::empty()
    } else {
        let rest = parsed_rows(outcomes.drop_last());
        match outcomes.last() {
            HistoryOutcome::Parsed(r) => rest.push(row_model(r)),
            HistoryOutcome::Skipped => rest,
        }
    }
}

/// Fold the per-entry outcomes into the row list: parsed rows survive in
/// order, skipped entries leave no trace.
#[verifier::loop_isolation(false)]
pub fn collect_parsed(outcomes: Vec<HistoryOutcome>) -> (r: Vec<CompatibilityRow>)
    ensures
        r@.map_values(|c: CompatibilityRow| row_model(c)) == parsed_rows(outcomes@),
{
    let mut r: Vec<CompatibilityRow> = Vec::new();
    let mut i: usize = 0;
    proof {
        assert(r@.map_values(|c: CompatibilityRow| row_model(c)) =~= parsed_rows(
            outcomes@.subrange(0, 0),
        ));
    }
    while i < outcomes.len()
        invariant
            i <= outcomes.len(),
            r@.map_values(|c: CompatibilityRow| row_model(c)) == parsed_rows(
                outcomes@.subrange(0, i as int),
            ),
        decreases outcomes.len() - i,
    {
        proof {
            let cur = outcomes@.subrange(0, i + 1);
            assert(cur.drop_last() =~= outcomes@.subrange(0, i as int));
            assert(cur.last() == outcomes@[i as int]);
        }
        let ghost pre = r@;
        match &outcomes[i] {
            HistoryOutcome::Parsed(row) => {
                let copied = CompatibilityRow {
                    id: row.id.clone(),
                    parent: row.parent.clone(),
                    os: row.os.clone(),
                    created: row.created.clone(),
                    cmd: row.cmd.clone(),
                    config: row.config.clone(),
                };
                proof {
                    assert(row_model(copied) == row_model(outcomes@[i as int]->Parsed_0));
                }
                r.push(copied);
                proof {
                    assert(r@.map_values(|c: CompatibilityRow| row_model(c)) =~= pre.map_values(
                        |c: CompatibilityRow| row_model(c),
                    ).push(row_model(outcomes@[i as int]->Parsed_0)));
                }
            },
            HistoryOutcome::Skipped => {},
        }
        i = i + 1;
    }
    proof {
        assert(outcomes@.subrange(0, outcomes@.len() as int) =~= outcomes@);
    }
    r
}

/// Parse one history entry from its optional inner text: the text must be
/// present and valid JSON, else the entry is skipped; a parsed row is
/// exactly the one its document's fields determine.
pub fn parse_history_entry(entry: &Option<String>) -> (r: HistoryOutcome)
    ensures
        outcome_model(r) == entry_outcome(opt_view(*entry)),
{
    match entry {
        Some(text) => match read_fields(text.as_str()) {
            Some(fields) => HistoryOutcome::Parsed(build_row(fields)),
            None => HistoryOutcome::Skipped,
        },
        None => HistoryOutcome::Skipped,
    }
}

proof fn lemma_parsed_rows_match(outcomes: Seq<HistoryOutcome>, entries: Seq<Option<Seq<char>>>)
    requires
        outcomes.len() == entries.len(),
        forall|k: int|
            0 <= k < outcomes.len() ==> outcome_model(#[trigger] outcomes[k]) == entry_outcome(
                entries[k],
            ),
    ensures
        parsed_rows(outcomes) == rows_of_entries(entries),
    decreases outcomes.len(),
{
    if outcomes.len() > 0 {
        let po = outcomes.drop_last();
        let pe = entries.drop_last();
        assert forall|k: int| 0 <= k < po.len() implies outcome_model(#[trigger] po[k])
            == entry_outcome(pe[k]) by {
            assert(po[k] == outcomes[k]);
            assert(pe[k] == entries[k]);
        }
        lemma_parsed_rows_match(po, pe);
        assert(outcome_model(outcomes[outcomes.len() - 1]) == entry_outcome(
            entries[entries.len() - 1],
        ));
        match outcomes.last() {
            HistoryOutcome::Parsed(r) => {
                assert(entry_outcome(entries.last()) == Some(row_model(r)));
            },
            HistoryOutcome::Skipped => {
                assert(entry_outcome(entries.last()) is None);
            },
        }
    }
}

/// Walk the manifest's history entries in order, parse each — skipping the
/// malformed ones — and return exactly the rows their documents determine,
/// beside the manifest's pretty-printed text, which per-entry failures
/// never disturb.
#[verifier::loop_isolation(false)]
pub fn parse_v1compatibility_fields(manifest: &ManifestView) -> (r: (
    Vec<CompatibilityRow>,
    String,
))
    ensures
        r.0@.map_values(|c: CompatibilityRow| row_model(c)) == rows_of_entries(
            entries_view(manifest.entries@),
        ),
        r.1@ == manifest.pretty@,
{
    let ghost model = entries_view(manifest.entries@);
    let mut outcomes: Vec<HistoryOutcome> = Vec::new();
    let mut i: usize = 0;
    while i < manifest.entries.len()
        invariant
            i <= manifest.entries.len(),
            outcomes@.len() == i,
            forall|k: int|
                0 <= k < i ==> outcome_model(#[trigger] outcomes@[k]) == entry_outcome(model[k]),
        decreases manifest.entries.len() - i,
    {
        let entry: &Option<String> = &manifest.entries[i];
        let outcome = parse_history_entry(entry);
        proof {
            assert(model[i as int] == opt_view(manifest.entries@[i as int]));
        }
        outcomes.push(outcome);
        i = i + 1;
    }
    proof {
        lemma_parsed_rows_match(outcomes@, model);
    }
    let rows = collect_parsed(outcomes);
    (rows, manifest.pretty.clone())
}

} // verus!
