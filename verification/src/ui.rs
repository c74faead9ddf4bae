//! Presentation state: flattening the grouped catalog into ordered display
//! rows with tree-drawing prefixes, and the selection, scrolling and overlay
//! state driven by key input.

use vstd::prelude::*;
use vstd::string::StringExecFns;
use crate::strutil::{
    rfind_from,
    concat2,
    concat3,
    split_at_last,
    split_around_last,
    line_count,
    count_lines,
};
use crate::registry::{
    read_manifest,
    parse_v1compatibility_fields,
    row_model,
    rows_of_entries,
    history_texts_of,
    pretty_of,
    parse_ok,
};

verus! {

/// One parsed layer-history entry, shaped for the overlay table.
pub struct CompatibilityRow {
    pub id: String,
    pub parent: String,
    pub os: String,
    pub created: String,
    pub cmd: String,
    pub config: String,
}

/// One manifest layer, shaped for a table; kept for renderers that list
/// layers rather than history entries.
pub struct LayerInfo {
    pub blob_sum: String,
    pub size: String,
    pub command: String,
}

/// A discrete key press, as the interface understands it.
pub enum Key {
    Up,
    Down,
    PageUp,
    PageDown,
    Left,
    Right,
    Enter,
    Esc,
    Other,
}

/// Interactive browser state: the flattened rows, the selection and scroll
/// position over them, and the detail overlay.
pub struct App {
    pub items: Vec<String>,
    pub item_types: Vec<usize>,
    pub full_image_names: Vec<String>,
    pub selected_index: usize,
    pub scroll_offset: usize,
    pub popup_open: bool,
    pub popup_content: String,
    pub popup_scroll_offset: usize,
    pub popup_scroll_offset_x: usize,
}

// ---------------------------------------------------------------------------
// The flattened-tree model: every display row is (depth, label, full path).
// ---------------------------------------------------------------------------

/// Glyph that marks the last sibling at a level.
pub open spec fn glyph_last() -> Seq<char> {
    "└── "@
}

/// Glyph that marks a sibling with further siblings below it.
pub open spec fn glyph_mid() -> Seq<char> {
    "├── "@
}

/// Continuation prefix under an ancestor that still has siblings below.
pub open spec fn cont_line() -> Seq<char> {
    "│   "@
}

/// Continuation prefix under an ancestor that was the last sibling.
pub open spec fn cont_blank() -> Seq<char> {
    "    "@
}

/// The depth-1 row of a namespace.
pub open spec fn host_row(name: Seq<char>, is_last: bool) -> (usize, Seq<char>, Seq<char>) {
    (
        1usize,
        (if is_last {
            glyph_last()
        } else {
            glyph_mid()
        }) + name,
        name,
    )
}

/// The depth-2 row of a repository under the namespace `host`.
pub open spec fn repo_row(host: Seq<char>, host_last: bool, name: Seq<char>, is_last: bool) -> (
    usize,
    Seq<char>,
    Seq<char>,
) {
    (
        2usize,
        (if host_last {
            cont_blank()
        } else {
            cont_line()
        }) + (if is_last {
            glyph_last()
        } else {
            glyph_mid()
        }) + name,
        host + "/"@ + name,
    )
}

/// The depth-3 row of a tag under the repository path `repo_path`.
pub open spec fn tag_row(
    host_last: bool,
    repo_last: bool,
    repo_path: Seq<char>,
    name: Seq<char>,
    is_last: bool,
) -> (usize, Seq<char>, Seq<char>) {
    (
        3usize,
        (if host_last {
            cont_blank()
        } else {
            cont_line()
        }) + (if repo_last {
            cont_blank()
        } else {
            cont_line()
        }) + (if is_last {
            glyph_last()
        } else {
            glyph_mid()
        }) + name,
        repo_path + "/"@ + name,
    )
}

/// The rows of the first `k` tags of one repository.
pub open spec fn tag_rows_upto(
    host_last: bool,
    repo_last: bool,
    repo_path: Seq<char>,
    tags: Seq<Seq<char>>,
    k: int,
) -> Seq<(usize, Seq<char>, Seq<char>)>
    decreases k,
{
    if k <= 0 {
        Seq::empty()
    } else {
        tag_rows_upto(host_last, repo_last, repo_path, tags, k - 1).push(
            tag_row(host_last, repo_last, repo_path, tags[k - 1], k == tags.len()),
        )
    }
}

/// The rows of the first `j` repositories of one namespace, each followed by
/// all of its tag rows.
pub open spec fn repo_rows_upto(
    host: Seq<char>,
    host_last: bool,
    repos: Seq<(Seq<char>, Seq<Seq<char>>)>,
    j: int,
) -> Seq<(usize, Seq<char>, Seq<char>)>
    decreases j,
{
    if j <= 0 {
        Seq::empty()
    } else {
        let name = repos[j - 1].0;
        let tags = repos[j - 1].1;
        let is_last = j == repos.len();
        repo_rows_upto(host, host_last, repos, j - 1).push(repo_row(host, host_last, name, is_last))
            + tag_rows_upto(host_last, is_last, host + "/"@ + name, tags, tags.len() as int)
    }
}

/// The rows of the first `i` namespaces, depth first.
pub open spec fn host_rows_upto(
    groups: Seq<(Seq<char>, Seq<(Seq<char>, Seq<Seq<char>>)>)>,
    i: int,
) -> Seq<(usize, Seq<char>, Seq<char>)>
    decreases i,
{
    if i <= 0 {
        Seq::empty()
    } else {
        let name = groups[i - 1].0;
        let repos = groups[i - 1].1;
        let is_last = i == groups.len();
        host_rows_upto(groups, i - 1).push(host_row(name, is_last)) + repo_rows_upto(
            name,
            is_last,
            repos,
            repos.len() as int,
        )
    }
}

/// The whole catalog flattened: for each namespace in order its row, its
/// repositories' rows, and each repository's tag rows, depth first; at every
/// level exactly the last sibling carries the terminal glyph.
pub open spec fn flatten_rows(groups: Seq<(Seq<char>, Seq<(Seq<char>, Seq<Seq<char>>)>)>) -> Seq<
    (usize, Seq<char>, Seq<char>),
> {
    host_rows_upto(groups, groups.len() as int)
}

/// The mathematical content of the grouped catalog handed to `App::new`.
pub open spec fn catalog_model(raw: Seq<(String, Vec<(String, Vec<String>)>)>) -> Seq<
    (Seq<char>, Seq<(Seq<char>, Seq<Seq<char>>)>),
> {
    raw.map_values(
        |h: (String, Vec<(String, Vec<String>)>)|
            (
                h.0@,
                h.1@.map_values(
                    |r: (String, Vec<String>)| (r.0@, r.1@.map_values(|t: String| t@)),
                ),
            ),
    )
}

/// The three parallel columns of `App` read as one row sequence.
pub open spec fn rows_of(items: Seq<String>, types: Seq<usize>, names: Seq<String>) -> Seq<
    (usize, Seq<char>, Seq<char>),
> {
    Seq::new(items.len(), |i: int| (types[i], items[i]@, names[i]@))
}

proof fn lemma_rows_push(
    items: Seq<String>,
    types: Seq<usize>,
    names: Seq<String>,
    it: String,
    ty: usize,
    nm: String,
)
    requires
        types.len() == items.len(),
        names.len() == items.len(),
    ensures
        rows_of(items.push(it), types.push(ty), names.push(nm)) == rows_of(
            items,
            types,
            names,
        ).push((ty, it@, nm@)),
{
    assert(rows_of(items.push(it), types.push(ty), names.push(nm)) =~= rows_of(
        items,
        types,
        names,
    ).push((ty, it@, nm@)));
}

impl App {
    /// The row sequence this state presents.
    pub open spec fn rows(self) -> Seq<(usize, Seq<char>, Seq<char>)> {
        rows_of(self.items@, self.item_types@, self.full_image_names@)
    }

    /// Selection and scroll indices are meaningful for the row list.
    pub open spec fn nav_wf(self) -> bool {
        if self.items@.len() == 0 {
            self.selected_index == 0 && self.scroll_offset == 0
        } else {
            self.selected_index < self.items@.len()
        }
    }

    /// Structural soundness: the three row columns run in parallel, the
    /// selection is in range, and every tag row's path has a separator, so
    /// it can be split into an image and a tag.
    pub open spec fn wf(self) -> bool {
        &&& self.item_types@.len() == self.items@.len()
        &&& self.full_image_names@.len() == self.items@.len()
        &&& self.nav_wf()
        &&& forall|k: int|
            0 <= k < self.item_types@.len() && #[trigger] self.item_types@[k] == 3
                ==> rfind_from(
                self.full_image_names@[k]@,
                '/',
                self.full_image_names@[k]@.len() - 1,
            ) is Some
    }
}

// ---------------------------------------------------------------------------
// Every flattened row is a well-formed display row.
// ---------------------------------------------------------------------------

/// A display row: its depth is 1, 2 or 3, and a tag row's path can be split
/// at a separator.
pub open spec fn row_ok(r: (usize, Seq<char>, Seq<char>)) -> bool {
    &&& r.0 == 1 || r.0 == 2 || r.0 == 3
    &&& r.0 == 3 ==> rfind_from(r.2, '/', r.2.len() - 1) is Some
}

proof fn lemma_rfind_finds(s: Seq<char>, c: char, k: int, i: int)
    requires
        0 <= k <= i < s.len(),
        s[k] == c,
    ensures
        rfind_from(s, c, i) is Some,
    decreases i + 1,
{
    if s[i] != c {
        lemma_rfind_finds(s, c, k, i - 1);
    }
}

proof fn lemma_slash_path_splits(prefix: Seq<char>, name: Seq<char>)
    ensures
        rfind_from(prefix + "/"@ + name, '/', (prefix + "/"@ + name).len() - 1) is Some,
{
    reveal_strlit("/");
    let path = prefix + "/"@ + name;
    assert(path[prefix.len() as int] == '/');
    lemma_rfind_finds(path, '/', prefix.len() as int, path.len() - 1);
}

proof fn lemma_tag_rows_ok(
    host_last: bool,
    repo_last: bool,
    repo_path: Seq<char>,
    tags: Seq<Seq<char>>,
    k: int,
)
    ensures
        forall|x: int|
            0 <= x < tag_rows_upto(host_last, repo_last, repo_path, tags, k).len()
                ==> #[trigger] row_ok(tag_rows_upto(host_last, repo_last, repo_path, tags, k)[x]),
    decreases k,
{
    if k > 0 {
        lemma_tag_rows_ok(host_last, repo_last, repo_path, tags, k - 1);
        lemma_slash_path_splits(repo_path, tags[k - 1]);
        let prev = tag_rows_upto(host_last, repo_last, repo_path, tags, k - 1);
        let cur = tag_rows_upto(host_last, repo_last, repo_path, tags, k);
        let newrow = tag_row(host_last, repo_last, repo_path, tags[k - 1], k == tags.len());
        assert(cur == prev.push(newrow));
        assert forall|x: int| 0 <= x < cur.len() implies #[trigger] row_ok(cur[x]) by {
            if x < prev.len() {
                assert(cur[x] == prev[x]);
                assert(row_ok(prev[x]));
            } else {
                assert(cur[x] == newrow);
            }
        }
    }
}

proof fn lemma_repo_rows_ok(
    host: Seq<char>,
    host_last: bool,
    repos: Seq<(Seq<char>, Seq<Seq<char>>)>,
    j: int,
)
    ensures
        forall|x: int|
            0 <= x < repo_rows_upto(host, host_last, repos, j).len() ==> #[trigger] row_ok(
                repo_rows_upto(host, host_last, repos, j)[x],
            ),
    decreases j,
{
    if j > 0 {
        lemma_repo_rows_ok(host, host_last, repos, j - 1);
        let name = repos[j - 1].0;
        let tags = repos[j - 1].1;
        let is_last = j == repos.len();
        lemma_tag_rows_ok(host_last, is_last, host + "/"@ + name, tags, tags.len() as int);
        let prev = repo_rows_upto(host, host_last, repos, j - 1);
        let cur = repo_rows_upto(host, host_last, repos, j);
        let trows = tag_rows_upto(host_last, is_last, host + "/"@ + name, tags, tags.len() as int);
        let newrow = repo_row(host, host_last, name, is_last);
        assert(cur == prev.push(newrow) + trows);
        assert forall|x: int| 0 <= x < cur.len() implies #[trigger] row_ok(cur[x]) by {
            if x < prev.len() {
                assert(cur[x] == prev[x]);
                assert(row_ok(prev[x]));
            } else if x == prev.len() {
                assert(cur[x] == newrow);
            } else {
                assert(cur[x] == trows[x - prev.len() - 1]);
                assert(row_ok(trows[x - prev.len() - 1]));
            }
        }
    }
}

proof fn lemma_host_rows_ok(groups: Seq<(Seq<char>, Seq<(Seq<char>, Seq<Seq<char>>)>)>, i: int)
    ensures
        forall|x: int|
            0 <= x < host_rows_upto(groups, i).len() ==> #[trigger] row_ok(
                host_rows_upto(groups, i)[x],
            ),
    decreases i,
{
    if i > 0 {
        lemma_host_rows_ok(groups, i - 1);
        let name = groups[i - 1].0;
        let repos = groups[i - 1].1;
        let is_last = i == groups.len();
        lemma_repo_rows_ok(name, is_last, repos, repos.len() as int);
        let prev = host_rows_upto(groups, i - 1);
        let cur = host_rows_upto(groups, i);
        let rrows = repo_rows_upto(name, is_last, repos, repos.len() as int);
        let newrow = host_row(name, is_last);
        assert(cur == prev.push(newrow) + rrows);
        assert forall|x: int| 0 <= x < cur.len() implies #[trigger] row_ok(cur[x]) by {
            if x < prev.len() {
                assert(cur[x] == prev[x]);
                assert(row_ok(prev[x]));
            } else if x == prev.len() {
                assert(cur[x] == newrow);
            } else {
                assert(cur[x] == rrows[x - prev.len() - 1]);
                assert(row_ok(rrows[x - prev.len() - 1]));
            }
        }
    }
}

// ---------------------------------------------------------------------------
// Row counting: the flattened list has one row per namespace, repository
// and tag.
// ---------------------------------------------------------------------------

/// Number of repositories among the first `i` namespaces.
pub open spec fn count_repos(
    groups: Seq<(Seq<char>, Seq<(Seq<char>, Seq<Seq<char>>)>)>,
    i: int,
) -> nat
    decreases i,
{
    if i <= 0 {
        0
    } else {
        count_repos(groups, i - 1) + groups[i - 1].1.len()
    }
}

/// Number of tags among the first `j` repositories of one namespace.
pub open spec fn count_tags_of_host(repos: Seq<(Seq<char>, Seq<Seq<char>>)>, j: int) -> nat
    decreases j,
{
    if j <= 0 {
        0
    } else {
        count_tags_of_host(repos, j - 1) + repos[j - 1].1.len()
    }
}

/// Number of tags among the first `i` namespaces.
pub open spec fn count_tags(
    groups: Seq<(Seq<char>, Seq<(Seq<char>, Seq<Seq<char>>)>)>,
    i: int,
) -> nat
    decreases i,
{
    if i <= 0 {
        0
    } else {
        count_tags(groups, i - 1) + count_tags_of_host(groups[i - 1].1, groups[i - 1].1.len() as int)
    }
}

proof fn lemma_tag_rows_len(
    host_last: bool,
    repo_last: bool,
    repo_path: Seq<char>,
    tags: Seq<Seq<char>>,
    k: int,
)
    requires
        k >= 0,
    ensures
        tag_rows_upto(host_last, repo_last, repo_path, tags, k).len() == k,
    decreases k,
{
    if k > 0 {
        lemma_tag_rows_len(host_last, repo_last, repo_path, tags, k - 1);
    }
}

proof fn lemma_repo_rows_len(
    host: Seq<char>,
    host_last: bool,
    repos: Seq<(Seq<char>, Seq<Seq<char>>)>,
    j: int,
)
    requires
        j >= 0,
    ensures
        repo_rows_upto(host, host_last, repos, j).len() == j + count_tags_of_host(repos, j),
    decreases j,
{
    if j > 0 {
        lemma_repo_rows_len(host, host_last, repos, j - 1);
        let name = repos[j - 1].0;
        let tags = repos[j - 1].1;
        let is_last = j == repos.len();
        lemma_tag_rows_len(host_last, is_last, host + "/"@ + name, tags, tags.len() as int);
    }
}

proof fn lemma_host_rows_len(groups: Seq<(Seq<char>, Seq<(Seq<char>, Seq<Seq<char>>)>)>, i: int)
    requires
        i >= 0,
    ensures
        host_rows_upto(groups, i).len() == i + count_repos(groups, i) + count_tags(groups, i),
    decreases i,
{
    if i > 0 {
        lemma_host_rows_len(groups, i - 1);
        let name = groups[i - 1].0;
        let repos = groups[i - 1].1;
        let is_last = i == groups.len();
        lemma_repo_rows_len(name, is_last, repos, repos.len() as int);
    }
}

/// Law: at every level, the terminal glyph opens the branch part of a row's
/// label exactly when the row is the last sibling: at the front of a
/// namespace label, after one continuation prefix in a repository label,
/// and after two in a tag label — and the two glyphs are distinct.
pub proof fn lemma_terminal_glyph_marks_last(
    host_last: bool,
    repo_last: bool,
    path: Seq<char>,
    name: Seq<char>,
    is_last: bool,
)
    ensures
        glyph_last() != glyph_mid(),
        host_row(name, is_last).1.subrange(0, 4) == (if is_last {
            glyph_last()
        } else {
            glyph_mid()
        }),
        repo_row(path, host_last, name, is_last).1.subrange(4, 8) == (if is_last {
            glyph_last()
        } else {
            glyph_mid()
        }),
        tag_row(host_last, repo_last, path, name, is_last).1.subrange(8, 12) == (if is_last {
            glyph_last()
        } else {
            glyph_mid()
        }),
{
    reveal_strlit("└── ");
    reveal_strlit("├── ");
    reveal_strlit("│   ");
    reveal_strlit("    ");
    assert(glyph_last()[0] != glyph_mid()[0]);
    let glyph = if is_last {
        glyph_last()
    } else {
        glyph_mid()
    };
    assert(host_row(name, is_last).1.subrange(0, 4) =~= glyph);
    assert(repo_row(path, host_last, name, is_last).1.subrange(4, 8) =~= glyph);
    assert(tag_row(host_last, repo_last, path, name, is_last).1.subrange(8, 12) =~= glyph);
}

proof fn lemma_host_rows_prefix(
    groups: Seq<(Seq<char>, Seq<(Seq<char>, Seq<Seq<char>>)>)>,
    i: int,
    m: int,
)
    requires
        0 <= i <= m,
    ensures
        host_rows_upto(groups, i).len() <= host_rows_upto(groups, m).len(),
        host_rows_upto(groups, m).subrange(0, host_rows_upto(groups, i).len() as int)
            == host_rows_upto(groups, i),
    decreases m - i,
{
    if m > i {
        lemma_host_rows_prefix(groups, i, m - 1);
        let prev = host_rows_upto(groups, m - 1);
        let cur = host_rows_upto(groups, m);
        let li = host_rows_upto(groups, i).len() as int;
        assert(cur.subrange(0, li) =~= prev.subrange(0, li));
    } else {
        assert(host_rows_upto(groups, m).subrange(0, host_rows_upto(groups, i).len() as int)
            =~= host_rows_upto(groups, i));
    }
}

/// Law: the flattened list is depth first at the namespace level.  The
/// whole subtree of namespace `i` — its own row first, then its
/// repositories' rows each followed by their tag rows — occupies one
/// contiguous block, which starts right after the blocks of the namespaces
/// before it; so the rows of distinct subtrees never interleave.
pub proof fn lemma_flatten_depth_first(
    groups: Seq<(Seq<char>, Seq<(Seq<char>, Seq<Seq<char>>)>)>,
    i: int,
)
    requires
        0 <= i < groups.len(),
    ensures
        ({
            let start = host_rows_upto(groups, i).len() as int;
            let block = seq![host_row(groups[i].0, i + 1 == groups.len())] + repo_rows_upto(
                groups[i].0,
                i + 1 == groups.len(),
                groups[i].1,
                groups[i].1.len() as int,
            );
            &&& start == i + count_repos(groups, i) + count_tags(groups, i)
            &&& start + block.len() <= flatten_rows(groups).len()
            &&& flatten_rows(groups).subrange(start, start + block.len() as int) == block
            &&& flatten_rows(groups)[start] == host_row(groups[i].0, i + 1 == groups.len())
        }),
{
    lemma_host_rows_len(groups, i);
    lemma_host_rows_prefix(groups, i + 1, groups.len() as int);
    let start = host_rows_upto(groups, i).len() as int;
    let block = seq![host_row(groups[i].0, i + 1 == groups.len())] + repo_rows_upto(
        groups[i].0,
        i + 1 == groups.len(),
        groups[i].1,
        groups[i].1.len() as int,
    );
    assert(host_rows_upto(groups, i + 1) =~= host_rows_upto(groups, i) + block);
    let upto_next = host_rows_upto(groups, i + 1);
    let whole = flatten_rows(groups);
    assert(whole.subrange(0, upto_next.len() as int) == upto_next);
    assert forall|y: int| 0 <= y < block.len() implies whole[start + y] == block[y] by {
        assert(whole.subrange(0, upto_next.len() as int)[start + y] == whole[start + y]);
        assert(upto_next[start + y] == block[y]);
    }
    assert(whole.subrange(start, start + block.len() as int) =~= block);
    assert(block[0] == host_row(groups[i].0, i + 1 == groups.len()));
    assert(whole[start + 0] == block[0]);
}

proof fn lemma_repo_rows_prefix(
    host: Seq<char>,
    host_last: bool,
    repos: Seq<(Seq<char>, Seq<Seq<char>>)>,
    j: int,
    m: int,
)
    requires
        0 <= j <= m,
    ensures
        repo_rows_upto(host, host_last, repos, j).len() <= repo_rows_upto(
            host,
            host_last,
            repos,
            m,
        ).len(),
        repo_rows_upto(host, host_last, repos, m).subrange(
            0,
            repo_rows_upto(host, host_last, repos, j).len() as int,
        ) == repo_rows_upto(host, host_last, repos, j),
    decreases m - j,
{
    if m > j {
        lemma_repo_rows_prefix(host, host_last, repos, j, m - 1);
        let prev = repo_rows_upto(host, host_last, repos, m - 1);
        let cur = repo_rows_upto(host, host_last, repos, m);
        let lj = repo_rows_upto(host, host_last, repos, j).len() as int;
        assert(cur.subrange(0, lj) =~= prev.subrange(0, lj));
    } else {
        assert(repo_rows_upto(host, host_last, repos, m).subrange(
            0,
            repo_rows_upto(host, host_last, repos, j).len() as int,
        ) =~= repo_rows_upto(host, host_last, repos, j));
    }
}

/// Law: one namespace's rows are themselves depth first.  Repository `j`'s
/// block — its own row first, then its tag rows in order — starts right
/// after the blocks of the repositories before it; so repository subtrees
/// never interleave either.
pub proof fn lemma_repo_rows_depth_first(
    host: Seq<char>,
    host_last: bool,
    repos: Seq<(Seq<char>, Seq<Seq<char>>)>,
    j: int,
)
    requires
        0 <= j < repos.len(),
    ensures
        ({
            let all = repo_rows_upto(host, host_last, repos, repos.len() as int);
            let start = repo_rows_upto(host, host_last, repos, j).len() as int;
            let block = seq![repo_row(host, host_last, repos[j].0, j + 1 == repos.len())]
                + tag_rows_upto(
                host_last,
                j + 1 == repos.len(),
                host + "/"@ + repos[j].0,
                repos[j].1,
                repos[j].1.len() as int,
            );
            &&& start == j + count_tags_of_host(repos, j)
            &&& start + block.len() <= all.len()
            &&& all.subrange(start, start + block.len() as int) == block
            &&& all[start] == repo_row(host, host_last, repos[j].0, j + 1 == repos.len())
        }),
{
    lemma_repo_rows_len(host, host_last, repos, j);
    lemma_repo_rows_prefix(host, host_last, repos, j + 1, repos.len() as int);
    let all = repo_rows_upto(host, host_last, repos, repos.len() as int);
    let start = repo_rows_upto(host, host_last, repos, j).len() as int;
    let block = seq![repo_row(host, host_last, repos[j].0, j + 1 == repos.len())] + tag_rows_upto(
        host_last,
        j + 1 == repos.len(),
        host + "/"@ + repos[j].0,
        repos[j].1,
        repos[j].1.len() as int,
    );
    assert(repo_rows_upto(host, host_last, repos, j + 1) =~= repo_rows_upto(
        host,
        host_last,
        repos,
        j,
    ) + block);
    let upto_next = repo_rows_upto(host, host_last, repos, j + 1);
    assert(all.subrange(0, upto_next.len() as int) == upto_next);
    assert forall|y: int| 0 <= y < block.len() implies all[start + y] == block[y] by {
        assert(all.subrange(0, upto_next.len() as int)[start + y] == all[start + y]);
        assert(upto_next[start + y] == block[y]);
    }
    assert(all.subrange(start, start + block.len() as int) =~= block);
    assert(block[0] == repo_row(host, host_last, repos[j].0, j + 1 == repos.len()));
    assert(all[start + 0] == block[0]);
}

/// Law: among the namespace rows — each standing at the head of its
/// subtree's block — exactly the last namespace's label opens with the
/// terminal glyph; every other one opens with the branch glyph.
pub proof fn lemma_host_glyph_positional(
    groups: Seq<(Seq<char>, Seq<(Seq<char>, Seq<Seq<char>>)>)>,
    i: int,
)
    requires
        0 <= i < groups.len(),
    ensures
        ({
            let start = i + count_repos(groups, i) + count_tags(groups, i);
            flatten_rows(groups)[start].1.subrange(0, 4) == (if i + 1 == groups.len() {
                glyph_last()
            } else {
                glyph_mid()
            })
        }),
{
    lemma_flatten_depth_first(groups, i);
    lemma_terminal_glyph_marks_last(false, false, Seq::empty(), groups[i].0, i + 1
        == groups.len());
}

/// Law: among one namespace's repository rows — each heading its own
/// block — exactly the last repository's label carries the terminal glyph
/// after its continuation prefix.
pub proof fn lemma_repo_glyph_positional(
    host: Seq<char>,
    host_last: bool,
    repos: Seq<(Seq<char>, Seq<Seq<char>>)>,
    j: int,
)
    requires
        0 <= j < repos.len(),
    ensures
        ({
            let start = j + count_tags_of_host(repos, j);
            repo_rows_upto(host, host_last, repos, repos.len() as int)[start].1.subrange(4, 8) == (
            if j + 1 == repos.len() {
                glyph_last()
            } else {
                glyph_mid()
            })
        }),
{
    lemma_repo_rows_depth_first(host, host_last, repos, j);
    lemma_terminal_glyph_marks_last(host_last, false, host, repos[j].0, j + 1 == repos.len());
}

proof fn lemma_tag_rows_index(
    host_last: bool,
    repo_last: bool,
    repo_path: Seq<char>,
    tags: Seq<Seq<char>>,
    k: int,
    x: int,
)
    requires
        0 <= x < k <= tags.len(),
    ensures
        tag_rows_upto(host_last, repo_last, repo_path, tags, k)[x] == tag_row(
            host_last,
            repo_last,
            repo_path,
            tags[x],
            x + 1 == tags.len(),
        ),
    decreases k,
{
    lemma_tag_rows_len(host_last, repo_last, repo_path, tags, k - 1);
    if x < k - 1 {
        lemma_tag_rows_index(host_last, repo_last, repo_path, tags, k - 1, x);
    }
}

/// Law: among one repository's tag rows, exactly the last tag's label
/// carries the terminal glyph after its two continuation prefixes.
pub proof fn lemma_tag_glyph_positional(
    host_last: bool,
    repo_last: bool,
    repo_path: Seq<char>,
    tags: Seq<Seq<char>>,
    k: int,
)
    requires
        0 <= k < tags.len(),
    ensures
        tag_rows_upto(host_last, repo_last, repo_path, tags, tags.len() as int)[k].1.subrange(
            8,
            12,
        ) == (if k + 1 == tags.len() {
            glyph_last()
        } else {
            glyph_mid()
        }),
{
    lemma_tag_rows_index(host_last, repo_last, repo_path, tags, tags.len() as int, k);
    lemma_terminal_glyph_marks_last(host_last, repo_last, repo_path, tags[k], k + 1 == tags.len());
}

/// Law: flattening a catalog of N1 namespaces, N2 repositories and N3 tags
/// yields exactly N1 + N2 + N3 rows.
pub proof fn lemma_flatten_count(groups: Seq<(Seq<char>, Seq<(Seq<char>, Seq<Seq<char>>)>)>)
    ensures
        flatten_rows(groups).len() == groups.len() + count_repos(groups, groups.len() as int)
            + count_tags(groups, groups.len() as int),
{
    lemma_host_rows_len(groups, groups.len() as int);
}

impl App {
    /// Flatten the grouped catalog into display rows, with selection at the
    /// top, no scroll, and the overlay closed.
    #[verifier::loop_isolation(false)]
    pub fn new(raw_items: Vec<(String, Vec<(String, Vec<String>)>)>) -> (app: App)
        ensures
            app.wf(),
            app.rows() == flatten_rows(catalog_model(raw_items@)),
            app.selected_index == 0,
            app.scroll_offset == 0,
            app.popup_open == false,
            app.popup_content@.len() == 0,
            app.popup_scroll_offset == 0,
            app.popup_scroll_offset_x == 0,
    {
        let ghost model = catalog_model(raw_items@);
        let mut items: Vec<String> = Vec::new();
        let mut item_types: Vec<usize> = Vec::new();
        let mut full_image_names: Vec<String> = Vec::new();
        let mut i: usize = 0;
        while i < raw_items.len()
            invariant
                i <= raw_items.len(),
                model == catalog_model(raw_items@),
                model.len() == raw_items@.len(),
                item_types@.len() == items@.len(),
                full_image_names@.len() == items@.len(),
                rows_of(items@, item_types@, full_image_names@) == host_rows_upto(model, i as int),
            decreases raw_items.len() - i,
        {
            let entry = &raw_items[i];
            let host_last: bool = i + 1 == raw_items.len();
            let ghost host_model = model[i as int].0;
            let ghost repos_model = model[i as int].1;
            proof {
                assert(model[i as int] == catalog_model(raw_items@)[i as int]);
                assert(host_model == raw_items@[i as int].0@);
                assert(repos_model == raw_items@[i as int].1@.map_values(
                    |r: (String, Vec<String>)| (r.0@, r.1@.map_values(|t: String| t@)),
                ));
            }
            let ghost base_host = host_rows_upto(model, i as int);
            let glyph1: &str = if host_last {
                "└── "
            } else {
                "├── "
            };
            let label1 = concat2(glyph1, entry.0.as_str());
            proof {
                lemma_rows_push(
                    items@,
                    item_types@,
                    full_image_names@,
                    label1,
                    1usize,
                    entry.0,
                );
            }
            items.push(label1);
            item_types.push(1);
            full_image_names.push(entry.0.clone());
            proof {
                assert(rows_of(items@, item_types@, full_image_names@) == base_host.push(
                    host_row(host_model, host_last),
                ));
            }
            let mut j: usize = 0;
            while j < entry.1.len()
                invariant
                    j <= entry.1.len(),
                    i < raw_items.len(),
                    host_last == (i + 1 == raw_items.len()),
                    model == catalog_model(raw_items@),
                    model.len() == raw_items@.len(),
                    host_model == model[i as int].0,
                    repos_model == model[i as int].1,
                    host_model == raw_items@[i as int].0@,
                    repos_model == raw_items@[i as int].1@.map_values(
                        |r: (String, Vec<String>)| (r.0@, r.1@.map_values(|t: String| t@)),
                    ),
                    entry == raw_items@[i as int],
                    repos_model.len() == entry.1@.len(),
                    base_host == host_rows_upto(model, i as int),
                    item_types@.len() == items@.len(),
                    full_image_names@.len() == items@.len(),
                    rows_of(items@, item_types@, full_image_names@) == base_host.push(
                        host_row(host_model, host_last),
                    ) + repo_rows_upto(host_model, host_last, repos_model, j as int),
                decreases entry.1.len() - j,
            {
                let repo_entry = &entry.1[j];
                let repo_last: bool = j + 1 == entry.1.len();
                let ghost repo_model = repos_model[j as int].0;
                let ghost tags_model = repos_model[j as int].1;
                proof {
                    assert(repos_model[j as int] == raw_items@[i as int].1@.map_values(
                        |r: (String, Vec<String>)| (r.0@, r.1@.map_values(|t: String| t@)),
                    )[j as int]);
                    assert(repo_model == entry.1@[j as int].0@);
                    assert(tags_model == entry.1@[j as int].1@.map_values(|t: String| t@));
                }
                let ghost base_repo = base_host.push(host_row(host_model, host_last))
                    + repo_rows_upto(host_model, host_last, repos_model, j as int);
                let pre2: &str = if host_last {
                    "    "
                } else {
                    "│   "
                };
                let glyph2: &str = if repo_last {
                    "└── "
                } else {
                    "├── "
                };
                let label2 = concat3(pre2, glyph2, repo_entry.0.as_str());
                let repo_path = concat3(entry.0.as_str(), "/", repo_entry.0.as_str());
                proof {
                    lemma_rows_push(
                        items@,
                        item_types@,
                        full_image_names@,
                        label2,
                        2usize,
                        repo_path,
                    );
                }
                items.push(label2);
                item_types.push(2);
                full_image_names.push(repo_path.clone());
                proof {
                    assert(rows_of(items@, item_types@, full_image_names@) == base_repo.push(
                        repo_row(host_model, host_last, repo_model, repo_last),
                    ));
                }
                let mut k: usize = 0;
                while k < repo_entry.1.len()
                    invariant
                        k <= repo_entry.1.len(),
                        i < raw_items.len(),
                        j < entry.1.len(),
                        host_last == (i + 1 == raw_items.len()),
                        repo_last == (j + 1 == entry.1.len()),
                        entry == raw_items@[i as int],
                        repo_entry == entry.1@[j as int],
                        repo_model == entry.1@[j as int].0@,
                        tags_model == entry.1@[j as int].1@.map_values(|t: String| t@),
                        tags_model.len() == repo_entry.1@.len(),
                        repos_model.len() == entry.1@.len(),
                        repos_model[j as int].0 == repo_model,
                        repos_model[j as int].1 == tags_model,
                        repo_path@ == host_model + "/"@ + repo_model,
                        item_types@.len() == items@.len(),
                        full_image_names@.len() == items@.len(),
                        rows_of(items@, item_types@, full_image_names@) == base_repo.push(
                            repo_row(host_model, host_last, repo_model, repo_last),
                        ) + tag_rows_upto(
                            host_last,
                            repo_last,
                            host_model + "/"@ + repo_model,
                            tags_model,
                            k as int,
                        ),
                    decreases repo_entry.1.len() - k,
                {
                    let tag = &repo_entry.1[k];
                    let tag_last: bool = k + 1 == repo_entry.1.len();
                    proof {
                        assert(tags_model[k as int] == repo_entry.1@[k as int]@);
                    }
                    let pre3: &str = if repo_last {
                        "    "
                    } else {
                        "│   "
                    };
                    let glyph3: &str = if tag_last {
                        "└── "
                    } else {
                        "├── "
                    };
                    let mut label3 = String::from_str(pre2);
                    label3.append(pre3);
                    label3.append(glyph3);
                    label3.append(tag.as_str());
                    let tag_path = concat3(repo_path.as_str(), "/", tag.as_str());
                    proof {
                        lemma_rows_push(
                            items@,
                            item_types@,
                            full_image_names@,
                            label3,
                            3usize,
                            tag_path,
                        );
                    }
                    items.push(label3);
                    item_types.push(3);
                    full_image_names.push(tag_path);
                    proof {
                        let path = host_model + "/"@ + repo_model;
                        let rr = repo_row(host_model, host_last, repo_model, repo_last);
                        let newrow = tag_row(
                            host_last,
                            repo_last,
                            path,
                            tags_model[k as int],
                            k + 1 == tags_model.len(),
                        );
                        assert(label3@ == newrow.1);
                        assert(tag_path@ == newrow.2);
                        assert(tag_rows_upto(host_last, repo_last, path, tags_model, k + 1)
                            == tag_rows_upto(host_last, repo_last, path, tags_model, k as int).push(
                            newrow,
                        ));
                        assert(base_repo.push(rr) + tag_rows_upto(
                            host_last,
                            repo_last,
                            path,
                            tags_model,
                            k + 1,
                        ) =~= (base_repo.push(rr) + tag_rows_upto(
                            host_last,
                            repo_last,
                            path,
                            tags_model,
                            k as int,
                        )).push(newrow));
                    }
                    k = k + 1;
                }
                proof {
                    let hr = host_row(host_model, host_last);
                    let rr = repo_row(host_model, host_last, repo_model, repo_last);
                    let path = host_model + "/"@ + repo_model;
                    let trows = tag_rows_upto(
                        host_last,
                        repo_last,
                        path,
                        tags_model,
                        tags_model.len() as int,
                    );
                    assert(repo_rows_upto(host_model, host_last, repos_model, j + 1)
                        == repo_rows_upto(host_model, host_last, repos_model, j as int).push(rr)
                        + trows);
                    assert(base_host.push(hr) + repo_rows_upto(
                        host_model,
                        host_last,
                        repos_model,
                        j + 1,
                    ) =~= base_repo.push(rr) + trows);
                }
                j = j + 1;
            }
            proof {
                let hr = host_row(host_model, host_last);
                let rrows = repo_rows_upto(
                    host_model,
                    host_last,
                    repos_model,
                    repos_model.len() as int,
                );
                assert(host_rows_upto(model, i + 1) == host_rows_upto(model, i as int).push(hr)
                    + rrows);
                assert(base_host.push(hr) + rrows =~= host_rows_upto(model, i + 1));
            }
            i = i + 1;
        }
        proof {
            lemma_host_rows_ok(model, model.len() as int);
        }
        let app = App {
            items,
            item_types,
            full_image_names,
            selected_index: 0,
            scroll_offset: 0,
            popup_open: false,
            popup_content: String::new(),
            popup_scroll_offset: 0,
            popup_scroll_offset_x: 0,
        };
        proof {
            assert forall|k: int|
                0 <= k < app.item_types@.len() && #[trigger] app.item_types@[k] == 3
                    implies rfind_from(
                app.full_image_names@[k]@,
                '/',
                app.full_image_names@[k]@.len() - 1,
            ) is Some by {
                assert(row_ok(app.rows()[k]));
            }
        }
        app
    }
}

// ---------------------------------------------------------------------------
// Navigation: selection and scroll over the row list.
// ---------------------------------------------------------------------------

/// A navigation operation over the row list.
pub enum NavOp {
    Next,
    Previous,
    PageDown,
    PageUp,
}

/// The smaller of two naturals.
pub open spec fn nat_min(a: nat, b: nat) -> nat {
    if a <= b {
        a
    } else {
        b
    }
}

/// `a - b`, floored at zero.
pub open spec fn nat_sub(a: nat, b: nat) -> nat {
    if a >= b {
        (a - b) as nat
    } else {
        0
    }
}

/// Exact transition of one navigation operation on (selection, scroll) over
/// a list of `len` rows with viewport height `h`.
pub open spec fn nav_step(sel: nat, off: nat, len: nat, h: nat, op: NavOp) -> (nat, nat) {
    match op {
        NavOp::Next => if sel + 1 < len {
            (
                (sel + 1) as nat,
                if sel + 1 >= off + h {
                    (off + 1) as nat
                } else {
                    off
                },
            )
        } else {
            (sel, off)
        },
        NavOp::Previous => if sel > 0 {
            (
                (sel - 1) as nat,
                if sel - 1 < off {
                    (off - 1) as nat
                } else {
                    off
                },
            )
        } else {
            (sel, off)
        },
        NavOp::PageDown => if len == 0 {
            (sel, off)
        } else {
            let s = nat_min((sel + h) as nat, (len - 1) as nat);
            (s, nat_sub((s + 1) as nat, h))
        },
        NavOp::PageUp => {
            let s = nat_sub(sel, h);
            (s, s)
        },
    }
}

/// The selected row sits inside the scrolled window, and the window inside
/// the list; a list shorter than the viewport is never scrolled.
pub open spec fn nav_inv(sel: nat, off: nat, len: nat, h: nat) -> bool {
    &&& off <= sel
    &&& sel < off + h
    &&& len > 0 ==> sel < len
    &&& len == 0 ==> sel == 0 && off == 0
    &&& off + h <= len || off == 0
}

/// One operation keeps the window invariant.
pub proof fn lemma_nav_step_preserves(sel: nat, off: nat, len: nat, h: nat, op: NavOp)
    requires
        h >= 1,
        nav_inv(sel, off, len, h),
    ensures
        nav_inv(nav_step(sel, off, len, h, op).0, nav_step(sel, off, len, h, op).1, len, h),
{
}

/// The state after a whole sequence of navigation operations.
pub open spec fn nav_trace(sel: nat, off: nat, len: nat, h: nat, ops: Seq<NavOp>) -> (nat, nat)
    decreases ops.len(),
{
    if ops.len() == 0 {
        (sel, off)
    } else {
        let mid = nav_step(sel, off, len, h, ops[0]);
        nav_trace(mid.0, mid.1, len, h, ops.drop_first())
    }
}

/// Law: after any sequence of navigation operations from a state satisfying
/// the window invariant — such as a fresh `App` — the invariant still
/// holds: `scroll_offset <= selected_index < scroll_offset + h`, and the
/// window stays inside the list or the scroll stays at zero.
pub proof fn lemma_nav_trace_inv(sel: nat, off: nat, len: nat, h: nat, ops: Seq<NavOp>)
    requires
        h >= 1,
        nav_inv(sel, off, len, h),
    ensures
        nav_inv(
            nav_trace(sel, off, len, h, ops).0,
            nav_trace(sel, off, len, h, ops).1,
            len,
            h,
        ),
    decreases ops.len(),
{
    if ops.len() > 0 {
        lemma_nav_step_preserves(sel, off, len, h, ops[0]);
        let mid = nav_step(sel, off, len, h, ops[0]);
        lemma_nav_trace_inv(mid.0, mid.1, len, h, ops.drop_first());
    }
}

/// A fresh state — selection and scroll both at the top — satisfies the
/// window invariant for every positive viewport height, so the trace law
/// applies to it.
pub proof fn lemma_initial_state_satisfies_inv(len: nat, h: nat)
    requires
        h >= 1,
    ensures
        nav_inv(0, 0, len, h),
{
}

/// The three row columns of `b` are those of `a`.
pub open spec fn same_rows(a: App, b: App) -> bool {
    &&& b.items == a.items
    &&& b.item_types == a.item_types
    &&& b.full_image_names == a.full_image_names
}

/// The overlay state of `b` is that of `a`.
pub open spec fn same_popup(a: App, b: App) -> bool {
    &&& b.popup_open == a.popup_open
    &&& b.popup_content == a.popup_content
    &&& b.popup_scroll_offset == a.popup_scroll_offset
    &&& b.popup_scroll_offset_x == a.popup_scroll_offset_x
}

/// The selection and scroll of `b` are those of `a`.
pub open spec fn same_nav(a: App, b: App) -> bool {
    &&& b.selected_index == a.selected_index
    &&& b.scroll_offset == a.scroll_offset
}

impl App {
    /// Move the selection one row down, following with a single-row scroll
    /// when it would leave the window; at the last row this is a no-op.
    pub fn next(&mut self, max_visible_items: usize)
        requires
            old(self).nav_wf(),
        ensures
            same_rows(*old(self), *final(self)),
            same_popup(*old(self), *final(self)),
            (final(self).selected_index as nat, final(self).scroll_offset as nat) == nav_step(
                old(self).selected_index as nat,
                old(self).scroll_offset as nat,
                old(self).items@.len(),
                max_visible_items as nat,
                NavOp::Next,
            ),
            old(self).selected_index + 1 >= old(self).items@.len() ==> *final(self) == *old(self),
            final(self).nav_wf(),
            old(self).wf() ==> final(self).wf(),
    {
        let len = self.items.len();
        if self.selected_index + 1 < len {
            self.selected_index = self.selected_index + 1;
            if self.selected_index >= max_visible_items && self.selected_index - max_visible_items
                >= self.scroll_offset {
                self.scroll_offset = self.scroll_offset + 1;
            }
        }
    }

    /// Move the selection one row up, following with a single-row scroll
    /// when it would leave the window; at the first row this is a no-op.
    pub fn previous(&mut self)
        requires
            old(self).nav_wf(),
        ensures
            same_rows(*old(self), *final(self)),
            same_popup(*old(self), *final(self)),
            (final(self).selected_index as nat, final(self).scroll_offset as nat) == nav_step(
                old(self).selected_index as nat,
                old(self).scroll_offset as nat,
                old(self).items@.len(),
                0,
                NavOp::Previous,
            ),
            old(self).selected_index == 0 ==> *final(self) == *old(self),
            final(self).nav_wf(),
            old(self).wf() ==> final(self).wf(),
    {
        if self.selected_index > 0 {
            self.selected_index = self.selected_index - 1;
            if self.selected_index < self.scroll_offset {
                self.scroll_offset = self.scroll_offset - 1;
            }
        }
    }

    /// Move the selection one viewport down, clamped to the last row, and
    /// scroll so the selection is the bottom-most visible row.
    pub fn next_page(&mut self, max_visible_items: usize)
        requires
            old(self).nav_wf(),
            old(self).items@.len() > 0,
            max_visible_items >= 1,
        ensures
            same_rows(*old(self), *final(self)),
            same_popup(*old(self), *final(self)),
            (final(self).selected_index as nat, final(self).scroll_offset as nat) == nav_step(
                old(self).selected_index as nat,
                old(self).scroll_offset as nat,
                old(self).items@.len(),
                max_visible_items as nat,
                NavOp::PageDown,
            ),
            final(self).selected_index as nat == nat_min(
                old(self).selected_index as nat + max_visible_items as nat,
                (old(self).items@.len() - 1) as nat,
            ),
            final(self).nav_wf(),
            old(self).wf() ==> final(self).wf(),
    {
        let len = self.items.len();
        if max_visible_items < len - self.selected_index {
            self.selected_index = self.selected_index + max_visible_items;
        } else {
            self.selected_index = len - 1;
        }
        if self.selected_index + 1 >= max_visible_items {
            self.scroll_offset = self.selected_index + 1 - max_visible_items;
        } else {
            self.scroll_offset = 0;
        }
    }

    /// Move the selection one viewport up, clamped to the first row, and
    /// scroll so the selection is the top-most visible row.
    pub fn previous_page(&mut self, max_visible_items: usize)
        requires
            old(self).nav_wf(),
        ensures
            same_rows(*old(self), *final(self)),
            same_popup(*old(self), *final(self)),
            (final(self).selected_index as nat, final(self).scroll_offset as nat) == nav_step(
                old(self).selected_index as nat,
                old(self).scroll_offset as nat,
                old(self).items@.len(),
                max_visible_items as nat,
                NavOp::PageUp,
            ),
            final(self).selected_index as nat == nat_sub(
                old(self).selected_index as nat,
                max_visible_items as nat,
            ),
            final(self).nav_wf(),
            old(self).wf() ==> final(self).wf(),
    {
        if self.selected_index >= max_visible_items {
            self.selected_index = self.selected_index - max_visible_items;
        } else {
            self.selected_index = 0;
        }
        self.scroll_offset = self.selected_index;
    }

    /// Close the overlay and drop its content; clearing changes the content,
    /// so both scroll offsets reset with it.  The selection is untouched.
    pub fn close_popup(&mut self)
        ensures
            same_rows(*old(self), *final(self)),
            same_nav(*old(self), *final(self)),
            final(self).popup_open == false,
            final(self).popup_content@.len() == 0,
            final(self).popup_scroll_offset == 0,
            final(self).popup_scroll_offset_x == 0,
            old(self).wf() ==> final(self).wf(),
    {
        self.popup_open = false;
        self.popup_content = String::new();
        self.popup_scroll_offset = 0;
        self.popup_scroll_offset_x = 0;
    }
}

// ---------------------------------------------------------------------------
// Overlay scrolling.
// ---------------------------------------------------------------------------

/// The largest vertical scroll the overlay admits: the content's line count
/// less the viewport, floored at zero.
pub open spec fn max_v_scroll(content: Seq<char>, h: nat) -> nat {
    nat_sub(line_count(content), h)
}

fn add_clamped(v: usize, step: usize, cap: usize) -> (r: usize)
    ensures
        r as nat == nat_min((v as nat + step as nat) as nat, cap as nat),
{
    if v >= cap {
        cap
    } else if cap - v < step {
        cap
    } else {
        v + step
    }
}

fn sub_floor(v: usize, step: usize) -> (r: usize)
    ensures
        r as nat == nat_sub(v as nat, step as nat),
{
    if v >= step {
        v - step
    } else {
        0
    }
}

impl App {
    /// Apply one key press to the open overlay: arrows scroll by three
    /// lines, page keys by a viewport, horizontal keys by ten columns, and
    /// escape closes it.  Vertical scroll never exceeds the content's line
    /// count less the viewport (floored at zero).
    pub fn handle_popup_input(&mut self, key: Key, max_visible_popup_lines: usize)
        requires
            key is Right ==> old(self).popup_scroll_offset_x + 10 <= usize::MAX,
        ensures
            same_rows(*old(self), *final(self)),
            same_nav(*old(self), *final(self)),
            ({
                let maxs = max_v_scroll(
                    old(self).popup_content@,
                    max_visible_popup_lines as nat,
                );
                let v = old(self).popup_scroll_offset as nat;
                let x = old(self).popup_scroll_offset_x as nat;
                match key {
                    Key::Down => final(self).popup_scroll_offset as nat == nat_min(
                        (v + 3) as nat,
                        maxs,
                    ) && same_overlay_rest(*old(self), *final(self)),
                    Key::Up => final(self).popup_scroll_offset as nat == nat_sub(v, 3)
                        && same_overlay_rest(*old(self), *final(self)),
                    Key::PageDown => final(self).popup_scroll_offset as nat == nat_min(
                        (v + max_visible_popup_lines as nat) as nat,
                        maxs,
                    ) && same_overlay_rest(*old(self), *final(self)),
                    Key::PageUp => final(self).popup_scroll_offset as nat == nat_sub(
                        v,
                        max_visible_popup_lines as nat,
                    ) && same_overlay_rest(*old(self), *final(self)),
                    Key::Right => final(self).popup_scroll_offset_x == x + 10 && same_overlay_v(
                        *old(self),
                        *final(self),
                    ),
                    Key::Left => final(self).popup_scroll_offset_x as nat == nat_sub(x, 10)
                        && same_overlay_v(*old(self), *final(self)),
                    Key::Esc => final(self).popup_open == false && final(self).popup_content@.len() == 0 && final(self).popup_scroll_offset == 0 && final(self).popup_scroll_offset_x == 0,
                    _ => *final(self) == *old(self),
                }
            }),
            old(self).wf() ==> final(self).wf(),
    {
        let lines = count_lines(self.popup_content.as_str());
        let maxs: usize = if lines >= max_visible_popup_lines {
            lines - max_visible_popup_lines
        } else {
            0
        };
        match key {
            Key::Down => {
                self.popup_scroll_offset = add_clamped(self.popup_scroll_offset, 3, maxs);
            },
            Key::Up => {
                self.popup_scroll_offset = sub_floor(self.popup_scroll_offset, 3);
            },
            Key::PageDown => {
                self.popup_scroll_offset = add_clamped(
                    self.popup_scroll_offset,
                    max_visible_popup_lines,
                    maxs,
                );
            },
            Key::PageUp => {
                self.popup_scroll_offset = sub_floor(
                    self.popup_scroll_offset,
                    max_visible_popup_lines,
                );
            },
            Key::Right => {
                self.popup_scroll_offset_x = self.popup_scroll_offset_x + 10;
            },
            Key::Left => {
                self.popup_scroll_offset_x = sub_floor(self.popup_scroll_offset_x, 10);
            },
            Key::Esc => {
                self.close_popup();
            },
            _ => {},
        }
    }
}

/// Everything of the overlay but the vertical scroll is that of `a`.
pub open spec fn same_overlay_rest(a: App, b: App) -> bool {
    &&& b.popup_open == a.popup_open
    &&& b.popup_content == a.popup_content
    &&& b.popup_scroll_offset_x == a.popup_scroll_offset_x
}

/// Everything of the overlay but the horizontal scroll is that of `a`.
pub open spec fn same_overlay_v(a: App, b: App) -> bool {
    &&& b.popup_open == a.popup_open
    &&& b.popup_content == a.popup_content
    &&& b.popup_scroll_offset == a.popup_scroll_offset
}

impl App {
    /// Apply one key press to the main view.  Movement keys drive the
    /// navigation operations; enter on a tag row yields the (image, tag)
    /// pair to fetch, leaving the state untouched; enter on any other row
    /// yields nothing and changes nothing; enter with the overlay open, or
    /// escape, closes the overlay.
    pub fn handle_main_input(&mut self, key: Key, max_visible_items: usize) -> (r: Option<
        (String, String),
    >)
        requires
            old(self).wf(),
            key is PageDown ==> old(self).items@.len() > 0 && max_visible_items >= 1,
            (key is Enter && !old(self).popup_open) ==> old(self).items@.len() > 0,
        ensures
            final(self).wf(),
            same_rows(*old(self), *final(self)),
            ({
                let len = old(self).items@.len();
                let sel = old(self).selected_index as nat;
                let off = old(self).scroll_offset as nat;
                let h = max_visible_items as nat;
                match key {
                    Key::Down => (final(self).selected_index as nat, final(self).scroll_offset as nat) == nav_step(sel, off, len, h, NavOp::Next)
                        && same_popup(*old(self), *final(self)) && r is None,
                    Key::Up => (final(self).selected_index as nat, final(self).scroll_offset as nat) == nav_step(sel, off, len, 0, NavOp::Previous)
                        && same_popup(*old(self), *final(self)) && r is None,
                    Key::PageDown => (final(self).selected_index as nat, final(self).scroll_offset as nat) == nav_step(sel, off, len, h, NavOp::PageDown)
                        && same_popup(*old(self), *final(self)) && r is None,
                    Key::PageUp => (final(self).selected_index as nat, final(self).scroll_offset as nat) == nav_step(sel, off, len, h, NavOp::PageUp)
                        && same_popup(*old(self), *final(self)) && r is None,
                    Key::Esc => final(self).popup_open == false && final(self).popup_content@.len() == 0 && final(self).popup_scroll_offset == 0 && final(self).popup_scroll_offset_x == 0 && same_nav(*old(self), *final(self)) && r is None,
                    Key::Enter => if old(self).popup_open {
                        final(self).popup_open == false && final(self).popup_content@.len() == 0
                            && final(self).popup_scroll_offset == 0
                            && final(self).popup_scroll_offset_x == 0
                            && same_nav(*old(self), *final(self)) && r is None
                    } else {
                        *final(self) == *old(self) && (if old(self).item_types@[sel as int] == 3 {
                            r matches Some(p) && p.0@ == split_around_last(
                                old(self).full_image_names@[sel as int]@,
                                '/',
                            ).0 && p.1@ == split_around_last(
                                old(self).full_image_names@[sel as int]@,
                                '/',
                            ).1
                        } else {
                            r is None
                        })
                    },
                    _ => *final(self) == *old(self) && r is None,
                }
            }),
    {
        match key {
            Key::Down => {
                self.next(max_visible_items);
                None
            },
            Key::Up => {
                self.previous();
                None
            },
            Key::PageDown => {
                self.next_page(max_visible_items);
                None
            },
            Key::PageUp => {
                self.previous_page(max_visible_items);
                None
            },
            Key::Esc => {
                self.close_popup();
                None
            },
            Key::Enter => {
                if self.popup_open {
                    self.close_popup();
                    None
                } else {
                    if self.item_types[self.selected_index] == 3 {
                        let full: &String = &self.full_image_names[self.selected_index];
                        let (image, tag) = split_at_last(full.as_str(), '/');
                        Some((image, tag))
                    } else {
                        None
                    }
                }
            },
            _ => None,
        }
    }
}

// ---------------------------------------------------------------------------
// The detail overlay.
// ---------------------------------------------------------------------------

/// The text tabled renders for the given row texts: a bordered
/// fixed-column table under a header line, a function of the row texts
/// alone.
pub uninterp spec fn table_of(
    rows: Seq<(Seq<char>, Seq<char>, Seq<char>, Seq<char>, Seq<char>, Seq<char>)>,
) -> Seq<char>;

/// Relies on tabled's Builder, Table::with and Display: renders the rows as
/// a bordered fixed-column table under a header line; the result depends on
/// the row texts alone.
#[verifier::external_body]
fn render_table(rows: &Vec<CompatibilityRow>) -> (r: String)
    ensures
        r@ == table_of(rows@.map_values(|c: CompatibilityRow| row_model(c))),
{
    let mut builder = tabled::builder::Builder::default();
    builder.push_record(["id", "parent", "os", "created", "Cmd", "config"]);
    for row in rows.iter() {
        builder.push_record([
            row.id.as_str(),
            row.parent.as_str(),
            row.os.as_str(),
            row.created.as_str(),
            row.cmd.as_str(),
            row.config.as_str(),
        ]);
    }
    let mut table = builder.build();
    table.with(tabled::settings::Style::modern());
    table.to_string()
}

impl App {
    /// Open the detail overlay from the manifest text fetched for the
    /// selected tag row: parse the text, tabulate its layer history, and
    /// show the table followed by a separator and the pretty-printed
    /// manifest, with both scroll offsets reset.  When the selected row is
    /// no tag row, or the text is not valid JSON, nothing changes and the
    /// overlay stays closed.
    pub fn open_popup(&mut self, manifest_text: &str) -> (opened: bool)
        requires
            old(self).wf(),
        ensures
            final(self).wf(),
            same_rows(*old(self), *final(self)),
            same_nav(*old(self), *final(self)),
            opened <==> (old(self).items@.len() > 0 && old(self).item_types@[old(
                self,
            ).selected_index as int] == 3 && parse_ok(manifest_text@)),
            !opened ==> *final(self) == *old(self),
            opened ==> final(self).popup_open == true && final(self).popup_scroll_offset == 0
                && final(self).popup_scroll_offset_x == 0,
            opened ==> final(self).popup_content@ == table_of(
                rows_of_entries(history_texts_of(manifest_text@)),
            ) + "\n------------------------\n"@ + pretty_of(manifest_text@),
    {
        if self.items.len() == 0 {
            return false;
        }
        if self.item_types[self.selected_index] != 3 {
            return false;
        }
        match read_manifest(manifest_text) {
            None => false,
            Some(manifest) => {
                let (table_data, full_json) = parse_v1compatibility_fields(&manifest);
                let table = render_table(&table_data);
                let mut content = table;
                content.append("\n------------------------\n");
                content.append(full_json.as_str());
                self.popup_content = content;
                self.popup_open = true;
                self.popup_scroll_offset = 0;
                self.popup_scroll_offset_x = 0;
                true
            },
        }
    }
}

} // verus!
