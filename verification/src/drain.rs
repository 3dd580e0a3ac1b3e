//! Drain: log lines are split into fields with a regex built from the log
//! format, their messages masked and cut into tokens, and grouped in a
//! fixed-depth prefix tree (see [`crate::prefix_tree`]).
use vstd::prelude::*;
use crate::format::{drain_line_regex, drain_regex_text, extract_variable_names, placeholder_name_list, placeholder_names, placeholders};
use crate::frame::{columns_fit, columns_view, first_column, frame_from_text_columns, frame_is_text, frame_text_column, frame_text_columns};
use crate::logram::{content_name, line_views};
use crate::mask::{mask_variables, masked, pattern_sources};
use crate::paths::{file_name_of, has_file_name, join_path, path_file_stem, path_joined, stem_of};
use crate::pattern::{fancy_regex_compiles, group_text, regex_captures, regex_compiles, regex_match_groups, FancyPattern, LinePattern};
use crate::prefix_tree::{
    child_cap,
    clusters_placed,
    law_insert_keeps_clusters_placed,
    law_insert_keeps_wf,
    leaf_depth,
    lemma_empty_tree_placed,
    lemma_leaves_at_leaf_depth,
    root_keys_are_lengths,
    empty_tree,
    insert_cluster,
    insert_ok,
    lemma_empty_tree_wf,
    node_ok,
    subtree_lines,
    wf_tree,
    ClusterView,
    LogCluster,
    NodeView,
    PrefixTree,
};
use crate::text::{law_has_digit_anywhere, contains_digit, decimal, has_digit, split_words, trim, trim_str, usize_to_decimal, words};

verus! {

/// `LineId`, the column of line numbers.
pub open spec fn line_id_name() -> Seq<char> {
    seq!['L', 'i', 'n', 'e', 'I', 'd']
}

/// The groups of `line` (trimmed) under the Drain regex of format `fmt`,
/// one per placeholder, `None` for a group that took no part in the match;
/// `None` when the line does not match.
pub open spec fn line_groups(fmt: Seq<char>, line: Seq<char>) -> Option<Seq<Option<Seq<char>>>> {
    match regex_match_groups(drain_line_regex(fmt), trim(line)) {
        None => None,
        Some(m) => Some(placeholder_names(fmt).map_values(|n: Seq<char>| group_text(m, n))),
    }
}

/// The field values of a match: the text of each group, empty for a group
/// that took no part in it.
pub open spec fn fields_of(groups: Seq<Option<Seq<char>>>) -> Seq<Seq<char>> {
    groups.map_values(
        |g: Option<Seq<char>>|
            match g {
                Some(v) => v,
                None => seq![],
            },
    )
}

/// The field values of the lines that matched, in order, from the match of
/// each line (`None` for a line that did not match).
pub open spec fn entries_of(matches: Seq<Option<Seq<Option<Seq<char>>>>>) -> Seq<Seq<Seq<char>>>
    decreases matches.len(),
{
    if matches.len() == 0 {
        seq![]
    } else {
        let rest = entries_of(matches.drop_last());
        match matches.last() {
            Some(g) => rest.push(fields_of(g)),
            None => rest,
        }
    }
}

/// The field values of the lines of a log in format `fmt` that match its
/// regex, in order.
pub open spec fn log_entries(fmt: Seq<char>, lines: Seq<Seq<char>>) -> Seq<Seq<Seq<char>>> {
    entries_of(lines.map_values(|l: Seq<char>| line_groups(fmt, l)))
}

/// The columns of the table of `entries`: none when there is no entry;
/// otherwise `LineId` (1, 2, ... in decimal) and then one column per field.
pub open spec fn entry_columns(names: Seq<Seq<char>>, entries: Seq<Seq<Seq<char>>>) -> Seq<
    (Seq<char>, Seq<Seq<char>>),
> {
    if entries.len() == 0 {
        seq![]
    } else {
        seq![(line_id_name(), Seq::new(entries.len(), |r: int| decimal((r + 1) as nat)))] + Seq::new(
            names.len(),
            |j: int| (names[j], Seq::new(entries.len(), |r: int| entries[r][j])),
        )
    }
}

/// The columns of the table of the lines of a log in format `fmt`.
pub open spec fn table_columns(fmt: Seq<char>, lines: Seq<Seq<char>>) -> Seq<(Seq<char>, Seq<Seq<char>>)> {
    entry_columns(placeholder_names(fmt), log_entries(fmt, lines))
}

/// The smaller of two numbers.
pub open spec fn min_nat(a: nat, b: nat) -> nat {
    if a <= b {
        a
    } else {
        b
    }
}

/// The clusters read off the table, row by row: the line id and the words
/// of the masked `Content`; `None` when a column is missing.
pub open spec fn table_rows(cols: Seq<(Seq<char>, Seq<Seq<char>>)>, sources: Seq<Seq<char>>) -> Option<
    Seq<ClusterView>,
> {
    match (first_column(cols, content_name()), first_column(cols, line_id_name())) {
        (Some(contents), Some(ids)) => Some(
            Seq::new(
                min_nat(contents.len(), ids.len()),
                |i: int|
                    ClusterView { log_id: ids[i], event: words(masked(contents[i], sources)->0) },
            ),
        ),
        _ => None,
    }
}

/// The tree after adding `rows` in order.
pub open spec fn insert_all(t: Seq<NodeView>, rows: Seq<ClusterView>, depth_limit: nat, max_child: nat) -> Seq<
    NodeView,
>
    decreases rows.len(),
{
    if rows.len() == 0 {
        t
    } else {
        insert_cluster(insert_all(t, rows.drop_last(), depth_limit, max_child), rows.last(), depth_limit, max_child).0
    }
}

/// What parsing the lines of a log gives: the lines showing the prefix
/// tree built from its rows, or an error when the table cannot be formed
/// (a field named `LineId`) or lacks a `Content` column (no line matched,
/// or the format has no `<Content>`).
pub open spec fn drain_outcome(
    fmt: Seq<char>,
    lines: Seq<Seq<char>>,
    sources: Seq<Seq<char>>,
    depth_limit: nat,
    max_child: nat,
) -> Option<Seq<Seq<char>>> {
    let cols = table_columns(fmt, lines);
    if !columns_fit(cols) {
        None
    } else {
        match table_rows(cols, sources) {
            None => None,
            Some(rows) => Some(
                subtree_lines(insert_all(empty_tree(), rows, depth_limit, max_child), 0, 1, depth_limit),
            ),
        }
    }
}

/// Every row of `rows`, added in turn to tree `t`, can be added (see
/// [`insert_ok`]).
pub open spec fn rows_ok(t: Seq<NodeView>, rows: Seq<ClusterView>, depth_limit: nat, max_child: nat) -> bool
    decreases rows.len(),
{
    if rows.len() == 0 {
        true
    } else {
        &&& rows_ok(t, rows.drop_last(), depth_limit, max_child)
        &&& insert_ok(insert_all(t, rows.drop_last(), depth_limit, max_child), rows.last(), depth_limit, max_child)
    }
}

/// Law: the prefix tree that Drain builds, adding any rows in turn to the
/// empty tree, is well formed (see [`crate::prefix_tree::law_insert_keeps_wf`]),
/// has numbers of tokens in decimal as root keys, holds clusters only at
/// the leaf depth, and holds each cluster where the walk by its tokens leads
/// from the root's child keyed by its number of tokens (see
/// [`crate::prefix_tree::law_insert_keeps_clusters_placed`]). With
/// `max_child` 0 this holds where every row can be added.
pub proof fn law_built_tree_shape(rows: Seq<ClusterView>, depth_limit: nat, max_child: nat)
    requires
        max_child >= 1 || rows_ok(empty_tree(), rows, depth_limit, 0),
    ensures
        wf_tree(insert_all(empty_tree(), rows, depth_limit, max_child), depth_limit, child_cap(max_child)),
        clusters_placed(insert_all(empty_tree(), rows, depth_limit, max_child), depth_limit, child_cap(max_child)),
        root_keys_are_lengths(insert_all(empty_tree(), rows, depth_limit, max_child)),
        forall|j: int|
            0 <= j < insert_all(empty_tree(), rows, depth_limit, max_child).len() && (#[trigger] insert_all(
                empty_tree(),
                rows,
                depth_limit,
                max_child,
            )[j]).content is Clusters ==> insert_all(empty_tree(), rows, depth_limit, max_child)[j].depth
                == leaf_depth(depth_limit),
        forall|j: int, i: int|
            0 <= j < insert_all(empty_tree(), rows, depth_limit, max_child).len() && insert_all(
                empty_tree(),
                rows,
                depth_limit,
                max_child,
            )[j].depth >= 2 && 0 <= i < insert_all(empty_tree(), rows, depth_limit, max_child)[j].token.len()
                ==> !('0' <= #[trigger] insert_all(empty_tree(), rows, depth_limit, max_child)[j].token[i]
                && insert_all(empty_tree(), rows, depth_limit, max_child)[j].token[i] <= '9'),
    decreases rows.len(),
{
    let t = insert_all(empty_tree(), rows, depth_limit, max_child);
    if rows.len() == 0 {
        lemma_empty_tree_wf(depth_limit, child_cap(max_child));
        lemma_empty_tree_placed(depth_limit, child_cap(max_child));
    } else {
        law_built_tree_shape(rows.drop_last(), depth_limit, max_child);
        let t0 = insert_all(empty_tree(), rows.drop_last(), depth_limit, max_child);
        law_insert_keeps_wf(t0, rows.last(), depth_limit, max_child);
        law_insert_keeps_clusters_placed(t0, rows.last(), depth_limit, max_child);
    }
    lemma_leaves_at_leaf_depth(t, depth_limit, child_cap(max_child));
    assert forall|j: int, i: int|
        0 <= j < t.len() && t[j].depth >= 2 && 0 <= i < t[j].token.len() implies !('0' <= #[trigger] t[j].token[i]
        && t[j].token[i] <= '9') by {
        assert(node_ok(t, j, depth_limit, child_cap(max_child)));
        law_has_digit_anywhere(t[j].token);
    }
}

/// When every row of `rows` can be added in turn, so can every row of its
/// first `k`.
pub proof fn lemma_rows_ok_take(t: Seq<NodeView>, rows: Seq<ClusterView>, depth_limit: nat, max_child: nat, k: int)
    requires
        rows_ok(t, rows, depth_limit, max_child),
        0 <= k <= rows.len(),
    ensures
        rows_ok(t, rows.take(k), depth_limit, max_child),
    decreases rows.len(),
{
    if k == rows.len() {
        assert(rows.take(k) =~= rows);
    } else {
        assert(rows.drop_last().take(k) =~= rows.take(k));
        lemma_rows_ok_take(t, rows.drop_last(), depth_limit, max_child, k);
    }
}

/// The inputs on which Drain's parsing runs to the end: the line regex
/// compiles, every message of the table can be masked, and, when a node
/// may have no child at all, every row can be added to the tree.
pub open spec fn drain_defined(
    fmt: Seq<char>,
    lines: Seq<Seq<char>>,
    sources: Seq<Seq<char>>,
    depth_limit: nat,
    max_child: nat,
) -> bool {
    let cols = table_columns(fmt, lines);
    &&& regex_compiles(drain_line_regex(fmt))
    &&& (columns_fit(cols) ==> match first_column(cols, content_name()) {
        Some(c) => {
            &&& forall|i: int| 0 <= i < c.len() ==> (masked(#[trigger] c[i], sources) is Some)
            &&& (max_child >= 1 || match table_rows(cols, sources) {
                Some(rows) => rows_ok(empty_tree(), rows, depth_limit, 0),
                None => true,
            })
        },
        None => true,
    })
}

/// The entries of two runs of matches, one after the other, are the
/// entries of the first followed by those of the second.
pub proof fn lemma_entries_of_concat(
    a: Seq<Option<Seq<Option<Seq<char>>>>>,
    b: Seq<Option<Seq<Option<Seq<char>>>>>,
)
    ensures
        entries_of(a + b) == entries_of(a) + entries_of(b),
    decreases b.len(),
{
    if b.len() == 0 {
        assert(a + b =~= a);
        assert(entries_of(a) + entries_of(b) =~= entries_of(a));
    } else {
        lemma_entries_of_concat(a, b.drop_last());
        assert((a + b).drop_last() =~= a + b.drop_last());
        assert((a + b).last() == b.last());
        match b.last() {
            Some(g) => {
                assert(entries_of(a) + entries_of(b) =~= (entries_of(a) + entries_of(b.drop_last())).push(
                    fields_of(g),
                ));
            },
            None => {},
        }
    }
}

/// Law: a line that does not match the log format is skipped: inserted
/// anywhere in a log, it changes neither the table of the log (line ids
/// included) nor what parsing the log gives.
pub proof fn law_unmatched_lines_are_skipped(
    fmt: Seq<char>,
    lines: Seq<Seq<char>>,
    k: int,
    bad: Seq<char>,
    sources: Seq<Seq<char>>,
    depth_limit: nat,
    max_child: nat,
)
    requires
        0 <= k <= lines.len(),
        line_groups(fmt, bad) is None,
    ensures
        table_columns(fmt, lines.insert(k, bad)) == table_columns(fmt, lines),
        drain_outcome(fmt, lines.insert(k, bad), sources, depth_limit, max_child) == drain_outcome(
            fmt,
            lines,
            sources,
            depth_limit,
            max_child,
        ),
{
    let f = |l: Seq<char>| line_groups(fmt, l);
    let m = lines.map_values(f);
    let m2 = lines.insert(k, bad).map_values(f);
    let none: Seq<Option<Seq<Option<Seq<char>>>>> = seq![None];
    assert(m2 =~= m.take(k) + none + m.skip(k));
    assert(m =~= m.take(k) + m.skip(k));
    assert(none.drop_last() =~= Seq::<Option<Seq<Option<Seq<char>>>>>::empty());
    assert(none.last() is None);
    assert(entries_of(none.drop_last()) =~= Seq::<Seq<Seq<char>>>::empty());
    assert(entries_of(none) =~= Seq::<Seq<Seq<char>>>::empty());
    lemma_entries_of_concat(m.take(k) + none, m.skip(k));
    lemma_entries_of_concat(m.take(k), none);
    lemma_entries_of_concat(m.take(k), m.skip(k));
    assert(entries_of(m.take(k) + none) =~= entries_of(m.take(k)));
    assert(log_entries(fmt, lines.insert(k, bad)) == log_entries(fmt, lines));
}

/// Why parsing failed.
pub enum DrainError {
    /// The table of parsed lines could not be formed or lacks a column.
    Frame,
}

/// Every pattern of `pats` compiles with `fancy_regex`.
pub open spec fn all_compile(pats: Seq<&str>) -> bool {
    forall|i: int| 0 <= i < pats.len() ==> fancy_regex_compiles(#[trigger] pats[i]@)
}

/// The views of a sequence of string slices.
pub open spec fn str_views(pats: Seq<&str>) -> Seq<Seq<char>> {
    Seq::new(pats.len(), |i: int| pats[i]@)
}

/// The columns of the table of a log (see [`entry_columns`]) with the fields
/// `names`, from the match of each of its lines: `None` for a line that did
/// not match, otherwise the text of each group in the order of `names`
/// (`None` for a group that took no part in the match).
pub fn line_table(names: &Vec<String>, matches: &Vec<Option<Vec<Option<String>>>>) -> (r: Vec<
    (String, Vec<String>),
>)
    requires
        forall|i: int|
            0 <= i < matches@.len() ==> ((#[trigger] matches@[i]) matches Some(g) ==> g@.len() == names@.len()),
    ensures
        columns_view(r@) == entry_columns(names.deep_view(), entries_of(matches.deep_view())),
{
    let ghost mv = matches.deep_view();
    let ghost nv = names.deep_view();
    let mut entries: Vec<Vec<String>> = Vec::new();
    let mut k: usize = 0;
    assert(mv.take(0) =~= Seq::<Option<Seq<Option<Seq<char>>>>>::empty());
    while k < matches.len()
        invariant
            mv == matches.deep_view(),
            nv == names.deep_view(),
            forall|i: int|
                0 <= i < matches@.len() ==> ((#[trigger] matches@[i]) matches Some(g) ==> g@.len() == nv.len()),
            k <= matches@.len(),
            entries.deep_view() == entries_of(mv.take(k as int)),
            forall|r: int| 0 <= r < entries@.len() ==> (#[trigger] entries@[r])@.len() == nv.len(),
        decreases matches@.len() - k,
    {
        assert(mv.take(k + 1).drop_last() =~= mv.take(k as int));
        assert(mv.take(k + 1).last() == mv[k as int]);
        match &matches[k] {
            Some(groups) => {
                let ghost gv = groups.deep_view();
                assert(mv[k as int] == Some(gv));
                let mut entry: Vec<String> = Vec::new();
                let mut j: usize = 0;
                while j < groups.len()
                    invariant
                        gv == groups.deep_view(),
                        j <= groups@.len(),
                        entry@.len() == j,
                        forall|jj: int|
                            0 <= jj < j ==> (#[trigger] entry@[jj])@ == (match gv[jj] {
                                Some(v) => v,
                                None => seq![],
                            }),
                    decreases groups@.len() - j,
                {
                    let v = match &groups[j] {
                        Some(v) => v.clone(),
                        None => String::new(),
                    };
                    entry.push(v);
                    j = j + 1;
                }
                let ghost before = entries.deep_view();
                let ghost ev = entry.deep_view();
                assert(ev =~= fields_of(gv));
                entries.push(entry);
                assert(entries.deep_view() =~= before.push(ev));
            },
            None => {
                assert(mv[k as int] is None);
            },
        }
        k = k + 1;
    }
    assert(mv.take(matches@.len() as int) =~= mv);
    let ghost ents = entries.deep_view();
    let mut columns: Vec<(String, Vec<String>)> = Vec::new();
    let e = entries.len();
    if e > 0 {
        let mut ids: Vec<String> = Vec::new();
        let mut r: usize = 0;
        while r < e
            invariant
                e == entries@.len(),
                r <= e,
                ids.deep_view() =~= Seq::new(r as nat, |i: int| decimal((i + 1) as nat)),
            decreases e - r,
        {
            let ghost before = ids.deep_view();
            let id = usize_to_decimal(r + 1);
            ids.push(id);
            assert(ids.deep_view() =~= before.push(decimal((r + 1) as nat)));
            r = r + 1;
        }
        let line_id = String::from_str("LineId");
        proof {
            reveal_strlit("LineId");
        }
        let ghost idv = ids.deep_view();
        let ghost lid = line_id@;
        assert(lid == line_id_name());
        assert(columns@ =~= Seq::<(String, Vec<String>)>::empty());
        columns.push((line_id, ids));
        assert(columns@.len() == 1);
        assert(columns@[0].0@ == lid);
        assert(columns@[0].1.deep_view() == idv);
        assert(columns_view(columns@) =~= seq![(line_id_name(), idv)]);
        assert(Seq::new(0 as nat, |jj: int| (nv[jj], Seq::new(e as nat, |rr: int| ents[rr][jj])))
            =~= Seq::<(Seq<char>, Seq<Seq<char>>)>::empty());
        let mut j: usize = 0;
        while j < names.len()
            invariant
                e == entries@.len(),
                e > 0,
                ents == entries.deep_view(),
                nv == names.deep_view(),
                forall|r: int| 0 <= r < entries@.len() ==> (#[trigger] entries@[r])@.len() == nv.len(),
                j <= nv.len(),
                columns_view(columns@) =~= seq![(line_id_name(), Seq::new(e as nat, |i: int| decimal((i + 1) as nat)))]
                    + Seq::new(j as nat, |jj: int| (nv[jj], Seq::new(e as nat, |rr: int| ents[rr][jj]))),
            decreases nv.len() - j,
        {
            let mut col: Vec<String> = Vec::new();
            let mut r: usize = 0;
            while r < e
                invariant
                    e == entries@.len(),
                    ents == entries.deep_view(),
                    j < nv.len(),
                    forall|r: int| 0 <= r < entries@.len() ==> (#[trigger] entries@[r])@.len() == nv.len(),
                    r <= e,
                    col.deep_view() =~= Seq::new(r as nat, |rr: int| ents[rr][j as int]),
                decreases e - r,
            {
                assert(entries@[r as int]@.len() == nv.len());
                let ghost before = col.deep_view();
                let cell = entries[r][j].clone();
                assert(cell@ == ents[r as int][j as int]);
                col.push(cell);
                assert(col.deep_view() =~= before.push(ents[r as int][j as int]));
                r = r + 1;
            }
            let ghost before = columns_view(columns@);
            columns.push((names[j].clone(), col));
            assert(columns_view(columns@) =~= before.push((nv[j as int], Seq::new(e as nat, |rr: int| ents[rr][j as int]))));
            j = j + 1;
        }
    } else {
        assert(columns_view(columns@) =~= Seq::<(Seq<char>, Seq<Seq<char>>)>::empty());
    }
    columns
}

/// A Drain parser.
pub struct LogParser {
    in_dir: String,
    out_dir: String,
    depth: usize,
    max_child: usize,
    log_format: String,
    log_name: Option<String>,
    log_file_path: Option<String>,
    df_log: Option<polars::prelude::DataFrame>,
    preprocess_regex: Vec<FancyPattern>,
    keep_para: bool,
}

impl LogParser {
    /// The input directory.
    pub closed spec fn in_dir_view(&self) -> Seq<char> {
        self.in_dir@
    }

    /// The output directory.
    pub closed spec fn out_dir_view(&self) -> Seq<char> {
        self.out_dir@
    }

    /// The depth at which clusters are stored.
    pub closed spec fn depth_view(&self) -> nat {
        self.depth as nat
    }

    /// The largest number of children of a node.
    pub closed spec fn max_child_view(&self) -> nat {
        self.max_child as nat
    }

    /// The log format.
    pub closed spec fn log_format_view(&self) -> Seq<char> {
        self.log_format@
    }

    /// The source texts of the masking patterns.
    pub closed spec fn sources_view(&self) -> Seq<Seq<char>> {
        pattern_sources(self.preprocess_regex@)
    }

    /// Whether parameters are kept.
    pub closed spec fn keep_para_view(&self) -> bool {
        self.keep_para
    }

    /// The name of the log being parsed, once set.
    pub closed spec fn log_name_view(&self) -> Option<Seq<char>> {
        match self.log_name {
            Some(n) => Some(n@),
            None => None,
        }
    }

    /// The path of the log being parsed, once set.
    pub closed spec fn log_file_path_view(&self) -> Option<Seq<char>> {
        match self.log_file_path {
            Some(p) => Some(p@),
            None => None,
        }
    }

    /// The columns of the table of parsed lines, once loaded.
    pub closed spec fn table_view(&self) -> Option<Seq<(Seq<char>, Seq<Seq<char>>)>> {
        match self.df_log {
            Some(df) => Some(frame_text_columns(df)),
            None => None,
        }
    }

    /// The loaded table, if any, is made of text columns.
    #[verifier::type_invariant]
    spec fn table_is_text(&self) -> bool {
        self.df_log matches Some(df) ==> frame_is_text(df)
    }

    /// The configuration of `self` and `other` is the same.
    pub open spec fn same_config(&self, other: &Self) -> bool {
        &&& self.in_dir_view() == other.in_dir_view()
        &&& self.out_dir_view() == other.out_dir_view()
        &&& self.depth_view() == other.depth_view()
        &&& self.max_child_view() == other.max_child_view()
        &&& self.log_format_view() == other.log_format_view()
        &&& self.sources_view() == other.sources_view()
        &&& self.keep_para_view() == other.keep_para_view()
    }

    /// `self` is the parser made from these arguments: the directories
    /// default to `./` and `./result/`, the depth to 4, the largest number of
    /// children to 100 and `keep_para` to true; clusters are stored at depth
    /// `depth - 2` (0 when `depth < 2`); the masking patterns are those
    /// given, in order; no log has been named or loaded.
    pub open spec fn made_from(
        &self,
        indir: Option<String>,
        outdir: Option<String>,
        depth: Option<usize>,
        max_child: Option<usize>,
        log_format: String,
        preprocess_regex: Seq<&str>,
        keep_para: Option<bool>,
    ) -> bool {
        &&& self.in_dir_view() =~= (match indir {
            Some(d) => d@,
            None => seq!['.', '/'],
        })
        &&& self.out_dir_view() =~= (match outdir {
            Some(d) => d@,
            None => seq!['.', '/', 'r', 'e', 's', 'u', 'l', 't', '/'],
        })
        &&& self.depth_view() == (match depth {
            Some(d) => if d >= 2 {
                (d - 2) as nat
            } else {
                0
            },
            None => 2,
        })
        &&& self.max_child_view() == (match max_child {
            Some(m) => m as nat,
            None => 100,
        })
        &&& self.keep_para_view() == (match keep_para {
            Some(k) => k,
            None => true,
        })
        &&& self.log_format_view() == log_format@
        &&& self.sources_view() =~= str_views(preprocess_regex)
        &&& self.log_name_view() is None
        &&& self.log_file_path_view() is None
        &&& self.table_view() is None
    }

    /// A parser made from the arguments (see [`LogParser::made_from`]); each
    /// masking pattern is compiled with `fancy_regex`.
    pub fn new(
        indir: Option<String>,
        outdir: Option<String>,
        depth: Option<usize>,
        max_child: Option<usize>,
        log_format: String,
        preprocess_regex: Vec<&str>,
        keep_para: Option<bool>,
    ) -> (r: Self)
        requires
            all_compile(preprocess_regex@),
        ensures
            r.made_from(indir, outdir, depth, max_child, log_format, preprocess_regex@, keep_para),
    {
        let default_indir = String::from_str("./");
        let default_outdir = String::from_str("./result/");
        proof {
            reveal_strlit("./");
            reveal_strlit("./result/");
        }
        let mut compiled: Vec<FancyPattern> = Vec::new();
        let mut k: usize = 0;
        while k < preprocess_regex.len()
            invariant
                all_compile(preprocess_regex@),
                k <= preprocess_regex@.len(),
                pattern_sources(compiled@) =~= str_views(preprocess_regex@).take(k as int),
            decreases preprocess_regex@.len() - k,
        {
            assert(fancy_regex_compiles(preprocess_regex@[k as int]@));
            match FancyPattern::compile(preprocess_regex[k]) {
                Some(p) => {
                    let ghost before = compiled@;
                    compiled.push(p);
                    assert(pattern_sources(compiled@) =~= pattern_sources(before).push(p.source()));
                    assert(str_views(preprocess_regex@).take(k + 1) =~= str_views(preprocess_regex@).take(
                        k as int,
                    ).push(preprocess_regex@[k as int]@));
                },
                None => vstd::pervasive::unreached(),
            }
            k = k + 1;
        }
        let d = match depth {
            Some(d) => d,
            None => 4,
        };
        LogParser {
            in_dir: match indir {
                Some(dir) => dir,
                None => default_indir,
            },
            out_dir: match outdir {
                Some(dir) => dir,
                None => default_outdir,
            },
            depth: if d >= 2 {
                d - 2
            } else {
                0
            },
            max_child: match max_child {
                Some(m) => m,
                None => 100,
            },
            log_name: None,
            log_file_path: None,
            df_log: None,
            log_format,
            preprocess_regex: compiled,
            keep_para: match keep_para {
                Some(k) => k,
                None => true,
            },
        }
    }

    /// [`LogParser::new`], or `None` when a masking pattern does not compile.
    pub fn try_new(
        indir: Option<String>,
        outdir: Option<String>,
        depth: Option<usize>,
        max_child: Option<usize>,
        log_format: String,
        preprocess_regex: Vec<&str>,
        keep_para: Option<bool>,
    ) -> (r: Option<Self>)
        ensures
            r is Some <==> all_compile(preprocess_regex@),
            r matches Some(p) ==> p.made_from(
                indir,
                outdir,
                depth,
                max_child,
                log_format,
                preprocess_regex@,
                keep_para,
            ),
    {
        let mut k: usize = 0;
        while k < preprocess_regex.len()
            invariant
                k <= preprocess_regex@.len(),
                forall|i: int| 0 <= i < k ==> fancy_regex_compiles(#[trigger] preprocess_regex@[i]@),
            decreases preprocess_regex@.len() - k,
        {
            if FancyPattern::compile(preprocess_regex[k]).is_none() {
                return None;
            }
            k = k + 1;
        }
        Some(LogParser::new(indir, outdir, depth, max_child, log_format, preprocess_regex, keep_para))
    }

    /// The input directory.
    pub fn in_dir(&self) -> (r: &String)
        ensures
            r@ == self.in_dir_view(),
    {
        &self.in_dir
    }

    /// The output directory.
    pub fn out_dir(&self) -> (r: &String)
        ensures
            r@ == self.out_dir_view(),
    {
        &self.out_dir
    }

    /// The depth at which clusters are stored.
    pub fn depth(&self) -> (r: usize)
        ensures
            r == self.depth_view(),
    {
        self.depth
    }

    /// The largest number of children of a node.
    pub fn max_child(&self) -> (r: usize)
        ensures
            r == self.max_child_view(),
    {
        self.max_child
    }

    /// Whether parameters are kept.
    pub fn keep_para(&self) -> (r: bool)
        ensures
            r == self.keep_para_view(),
    {
        self.keep_para
    }

    /// The name of the log being parsed, with its suffix.
    pub fn get_logfile_name_with_suffix(&self) -> (r: &str)
        requires
            self.log_name_view() is Some,
        ensures
            r@ == self.log_name_view()->0,
    {
        match &self.log_name {
            Some(name) => name.as_str(),
            None => vstd::pervasive::unreached(),
        }
    }

    /// The name of the log being parsed without its suffix (its file stem),
    /// or the whole name when it has no stem.
    pub fn get_logfile_name_without_suffix(&self) -> (r: String)
        requires
            self.log_name_view() is Some,
        ensures
            has_file_name(self.log_name_view()->0) ==> r@ == stem_of(file_name_of(self.log_name_view()->0)),
    {
        let log_file_name = self.get_logfile_name_with_suffix();
        match path_file_stem(log_file_name) {
            Some(stem) => stem,
            None => String::from_str(log_file_name),
        }
    }

    /// The path of log `log_name` in the input directory.
    pub fn logfile_path_for(&self, log_name: &str) -> (r: String)
        ensures
            path_joined(self.in_dir_view(), log_name@, r@),
    {
        join_path(self.in_dir.as_str(), log_name)
    }

    /// The path of the log being parsed.
    pub fn get_logfile_path(&self) -> (r: String)
        requires
            self.log_name_view() is Some,
        ensures
            path_joined(self.in_dir_view(), self.log_name_view()->0, r@),
    {
        let log_name = self.get_logfile_name_with_suffix();
        self.logfile_path_for(log_name)
    }

    /// The field placeholders of `log_format`, with their angle brackets.
    pub fn extract_variable_names(&self, log_format: &str) -> (headers: Vec<String>)
        ensures
            headers.deep_view() == placeholders(log_format@),
    {
        extract_variable_names(log_format)
    }

    /// The placeholders of `log_format` and the compiled regex that splits
    /// a line of that format into its fields (see [`drain_line_regex`]).
    pub fn generate_logformat_regex(&self, log_format: &str) -> (r: (Vec<String>, LinePattern))
        requires
            regex_compiles(drain_line_regex(log_format@)),
        ensures
            r.0.deep_view() == placeholders(log_format@),
            r.1.source() == drain_line_regex(log_format@),
    {
        let headers = self.extract_variable_names(log_format);
        let text = drain_regex_text(log_format);
        let regex = match LinePattern::compile(text.as_str()) {
            Some(p) => p,
            None => vstd::pervasive::unreached(),
        };
        (headers, regex)
    }

    /// The columns of the table of `lines` (see [`table_columns`]): each
    /// trimmed line is matched with `regex` and the table is made from the
    /// matches (see [`line_table`]).
    fn build_columns(&self, regex: &LinePattern, names: &Vec<String>, lines: &Vec<String>) -> (r: Vec<
        (String, Vec<String>),
    >)
        requires
            regex.source() == drain_line_regex(self.log_format_view()),
            names.deep_view() == placeholder_names(self.log_format_view()),
        ensures
            columns_view(r@) == table_columns(self.log_format_view(), line_views(lines@)),
    {
        let ghost fmt = self.log_format_view();
        let ghost lv = line_views(lines@);
        let ghost nv = names.deep_view();
        let ghost groups_of = |l: Seq<char>| line_groups(fmt, l);
        let mut matches: Vec<Option<Vec<Option<String>>>> = Vec::new();
        let mut k: usize = 0;
        while k < lines.len()
            invariant
                regex.source() == drain_line_regex(fmt),
                nv == names.deep_view(),
                nv == placeholder_names(fmt),
                lv == line_views(lines@),
                groups_of == (|l: Seq<char>| line_groups(fmt, l)),
                k <= lines@.len(),
                matches.deep_view() =~= lv.take(k as int).map_values(groups_of),
                forall|i: int|
                    0 <= i < matches@.len() ==> ((#[trigger] matches@[i]) matches Some(g) ==> g@.len()
                        == nv.len()),
            decreases lines@.len() - k,
        {
            let trimmed = trim_str(lines[k].as_str());
            let found = regex_captures(regex, trimmed.as_str(), names);
            proof {
                assert(lv[k as int] == lines@[k as int]@);
                if found is Some {
                    assert(found->0.deep_view().len() == nv.len());
                }
            }
            let ghost before = matches.deep_view();
            matches.push(found);
            assert(lv.take(k + 1).map_values(groups_of) =~= lv.take(k as int).map_values(groups_of).push(
                groups_of(lv[k as int]),
            ));
            assert(matches.deep_view() =~= before.push(groups_of(lv[k as int])));
            k = k + 1;
        }
        assert(lv.take(lines@.len() as int) =~= lv);
        line_table(names, &matches)
    }

    /// Builds the table of `lines` (see [`table_columns`]) and keeps it;
    /// fails, keeping the table before, when the columns do not form a data
    /// frame.
    fn log_to_dataframe(&mut self, regex: &LinePattern, names: &Vec<String>, lines: &Vec<String>) -> (r:
        Result<(), DrainError>)
        requires
            regex.source() == drain_line_regex(old(self).log_format_view()),
            names.deep_view() == placeholder_names(old(self).log_format_view()),
        ensures
            final(self).same_config(old(self)),
            final(self).log_name_view() == old(self).log_name_view(),
            final(self).log_file_path_view() == old(self).log_file_path_view(),
            r is Ok <==> columns_fit(table_columns(old(self).log_format_view(), line_views(lines@))),
            r is Ok ==> final(self).table_view() == Some(
                table_columns(old(self).log_format_view(), line_views(lines@)),
            ),
            r is Err ==> final(self).table_view() == old(self).table_view(),
    {
        let columns = self.build_columns(regex, names, lines);
        match frame_from_text_columns(columns) {
            Ok(df) => {
                self.df_log = Some(df);
                Ok(())
            },
            Err(_) => Err(DrainError::Frame),
        }
    }

    /// Builds and keeps the table of `lines` with the parser's format.
    fn load_data(&mut self, lines: &Vec<String>) -> (r: Result<(), DrainError>)
        requires
            regex_compiles(drain_line_regex(old(self).log_format_view())),
        ensures
            final(self).same_config(old(self)),
            final(self).log_name_view() == old(self).log_name_view(),
            final(self).log_file_path_view() == old(self).log_file_path_view(),
            r is Ok <==> columns_fit(table_columns(old(self).log_format_view(), line_views(lines@))),
            r is Ok ==> final(self).table_view() == Some(
                table_columns(old(self).log_format_view(), line_views(lines@)),
            ),
            r is Err ==> final(self).table_view() == old(self).table_view(),
    {
        let (_headers, log_format_regex) = self.generate_logformat_regex(self.log_format.as_str());
        let names = placeholder_name_list(self.log_format.as_str());
        self.log_to_dataframe(&log_format_regex, &names, lines)
    }

    /// `line` with the matches of each masking pattern in turn replaced by
    /// `<*>`.
    pub fn preprocess(&self, line: &str) -> (r: String)
        requires
            masked(line@, self.sources_view()) is Some,
        ensures
            masked(line@, self.sources_view()) == Some(r@),
    {
        crate::logram::preprocess(line, &self.preprocess_regex)
    }

    /// Whether `token` holds a decimal digit.
    pub fn has_numbers(&self, token: &str) -> (r: bool)
        ensures
            r == has_digit(token@),
            r <==> exists|i: int| 0 <= i < token@.len() && '0' <= #[trigger] token@[i] && token@[i] <= '9',
    {
        contains_digit(token)
    }

    /// Adds a cluster to the prefix tree (see [`insert_cluster`]).
    pub fn add_seq_to_prefix_tree(&self, root_node: &mut PrefixTree, log_clust: &LogCluster)
        requires
            wf_tree(old(root_node)@, self.depth_view(), child_cap(self.max_child_view())),
            self.max_child_view() >= 1 || insert_ok(old(root_node)@, log_clust@, self.depth_view(), 0),
        ensures
            final(root_node)@ == insert_cluster(
                old(root_node)@,
                log_clust@,
                self.depth_view(),
                self.max_child_view(),
            ).0,
            wf_tree(final(root_node)@, self.depth_view(), child_cap(self.max_child_view())),
    {
        root_node.insert(log_clust, self.depth, self.max_child);
    }

    /// Parses the lines of log `log_name`: builds the table of its lines,
    /// then adds each row (line id, words of the masked `Content`) to a new
    /// prefix tree, and gives the lines that show the tree (see
    /// [`drain_outcome`]).
    pub fn parse(&mut self, log_name: String, lines: &Vec<String>) -> (r: Result<Vec<String>, DrainError>)
        requires
            drain_defined(
                old(self).log_format_view(),
                line_views(lines@),
                old(self).sources_view(),
                old(self).depth_view(),
                old(self).max_child_view(),
            ),
        ensures
            final(self).same_config(old(self)),
            final(self).log_name_view() == Some(log_name@),
            final(self).log_file_path_view() matches Some(p) && path_joined(
                old(self).in_dir_view(),
                log_name@,
                p,
            ),
            final(self).table_view() == if columns_fit(
                table_columns(old(self).log_format_view(), line_views(lines@)),
            ) {
                Some(table_columns(old(self).log_format_view(), line_views(lines@)))
            } else {
                old(self).table_view()
            },
            match r {
                Ok(v) => drain_outcome(
                    old(self).log_format_view(),
                    line_views(lines@),
                    old(self).sources_view(),
                    old(self).depth_view(),
                    old(self).max_child_view(),
                ) == Some(v.deep_view()),
                Err(_) => drain_outcome(
                    old(self).log_format_view(),
                    line_views(lines@),
                    old(self).sources_view(),
                    old(self).depth_view(),
                    old(self).max_child_view(),
                ) is None,
            },
    {
        let ghost fmt = self.log_format_view();
        let ghost lv = line_views(lines@);
        let ghost srcs = self.sources_view();
        let ghost dl = self.depth_view();
        let ghost mc = self.max_child_view();
        let ghost cols = table_columns(fmt, lv);
        proof {
            use_type_invariant(&*self);
        }
        self.log_name = Some(log_name);
        let path = self.get_logfile_path();
        self.log_file_path = Some(path);
        match self.load_data(lines) {
            Ok(()) => {},
            Err(e) => {
                return Err(e);
            },
        }
        proof {
            use_type_invariant(&*self);
        }
        let df = match &self.df_log {
            Some(df) => df,
            None => vstd::pervasive::unreached(),
        };
        assert(frame_text_columns(*df) == cols);
        assert(columns_fit(cols));
        let content_key = "Content";
        let line_id_key = "LineId";
        proof {
            reveal_strlit("Content");
            reveal_strlit("LineId");
            assert(content_key@ == content_name());
            assert(line_id_key@ == line_id_name());
        }
        let contents = match frame_text_column(df, content_key) {
            Ok(c) => c,
            Err(_) => {
                assert(table_rows(cols, srcs) is None);
                return Err(DrainError::Frame);
            },
        };
        let ids = match frame_text_column(df, line_id_key) {
            Ok(c) => c,
            Err(_) => {
                assert(table_rows(cols, srcs) is None);
                return Err(DrainError::Frame);
            },
        };
        let ghost cv = first_column(cols, content_name())->0;
        let ghost iv = first_column(cols, line_id_name())->0;
        let ghost rows = table_rows(cols, srcs)->0;
        assert(contents.deep_view().len() == cv.len());
        assert(ids.deep_view().len() == iv.len());
        let n = if ids.len() <= contents.len() {
            ids.len()
        } else {
            contents.len()
        };
        let mut root_node = PrefixTree::new();
        proof {
            lemma_empty_tree_wf(dl, child_cap(mc));
            assert(rows.take(0) =~= Seq::<ClusterView>::empty());
        }
        let mut i: usize = 0;
        while i < n
            invariant
                dl == self.depth_view(),
                mc == self.max_child_view(),
                mc >= 1 || rows_ok(empty_tree(), rows, dl, 0),
                srcs == self.sources_view(),
                forall|k: int| 0 <= k < cv.len() ==> (masked(#[trigger] cv[k], srcs) is Some),
                contents.deep_view() == cv.map_values(|x: Seq<char>| Some(x)),
                ids.deep_view() == iv.map_values(|x: Seq<char>| Some(x)),
                n == min_nat(cv.len(), iv.len()),
                n <= contents@.len(),
                n <= ids@.len(),
                rows == Seq::new(
                    n as nat,
                    |k: int| ClusterView { log_id: iv[k], event: words(masked(cv[k], srcs)->0) },
                ),
                i <= n,
                wf_tree(root_node@, dl, child_cap(mc)),
                root_node@ == insert_all(empty_tree(), rows.take(i as int), dl, mc),
            decreases n - i,
        {
            assert(ids.deep_view()[i as int] == Some(iv[i as int]));
            assert(contents.deep_view()[i as int] == Some(cv[i as int]));
            match (&ids[i], &contents[i]) {
                (Some(id), Some(content)) => {
                    assert(masked(cv[i as int], srcs) is Some);
                    let processed = self.preprocess(content.as_str());
                    let tokens = split_words(processed.as_str());
                    let log_clust = LogCluster::new(id.clone(), tokens);
                    assert(log_clust@ == rows[i as int]);
                    assert(rows.take(i + 1).drop_last() =~= rows.take(i as int));
                    proof {
                        if mc == 0 {
                            lemma_rows_ok_take(empty_tree(), rows, dl, 0, i + 1);
                            assert(rows.take(i + 1).last() == rows[i as int]);
                        }
                    }
                    self.add_seq_to_prefix_tree(&mut root_node, &log_clust);
                },
                _ => vstd::pervasive::unreached(),
            }
            i = i + 1;
        }
        assert(rows.take(n as int) =~= rows);
        proof {
            root_node.lemma_size_fits();
        }
        Ok(self.print_tree(&root_node, 0, 1))
    }

    /// [`LogParser::parse`], or `None` (leaving the parser as it was) where
    /// parsing would not run to the end (see [`drain_defined`]): the line
    /// regex is rejected, a message cannot be masked, or, with no room for
    /// children, a message meets a node where it cannot go on.
    pub fn try_parse(&mut self, log_name: String, lines: &Vec<String>) -> (r: Option<
        Result<Vec<String>, DrainError>,
    >)
        ensures
            r is Some <==> drain_defined(
                old(self).log_format_view(),
                line_views(lines@),
                old(self).sources_view(),
                old(self).depth_view(),
                old(self).max_child_view(),
            ),
            final(self).same_config(old(self)),
            r is None ==> *final(self) == *old(self),
            r is Some ==> {
                &&& final(self).log_name_view() == Some(log_name@)
                &&& final(self).log_file_path_view() matches Some(p) && path_joined(
                    old(self).in_dir_view(),
                    log_name@,
                    p,
                )
                &&& final(self).table_view() == if columns_fit(
                    table_columns(old(self).log_format_view(), line_views(lines@)),
                ) {
                    Some(table_columns(old(self).log_format_view(), line_views(lines@)))
                } else {
                    old(self).table_view()
                }
            },
            r matches Some(res) ==> match res {
                Ok(v) => drain_outcome(
                    old(self).log_format_view(),
                    line_views(lines@),
                    old(self).sources_view(),
                    old(self).depth_view(),
                    old(self).max_child_view(),
                ) == Some(v.deep_view()),
                Err(_) => drain_outcome(
                    old(self).log_format_view(),
                    line_views(lines@),
                    old(self).sources_view(),
                    old(self).depth_view(),
                    old(self).max_child_view(),
                ) is None,
            },
    {
        let ghost fmt = self.log_format_view();
        let ghost lv = line_views(lines@);
        let ghost srcs = self.sources_view();
        let ghost cols = table_columns(fmt, lv);
        let text = drain_regex_text(self.log_format.as_str());
        let regex = match LinePattern::compile(text.as_str()) {
            Some(p) => p,
            None => {
                return None;
            },
        };
        let names = placeholder_name_list(self.log_format.as_str());
        let columns = self.build_columns(&regex, &names, lines);
        assert(columns_view(columns@) == cols);
        let content_key = "Content";
        proof {
            reveal_strlit("Content");
            assert(content_key@ == content_name());
        }
        match frame_from_text_columns(columns) {
            Err(_) => {
                assert(!columns_fit(cols));
            },
            Ok(df) => {
                assert(frame_text_columns(df) == cols);
                match frame_text_column(&df, content_key) {
                    Err(_) => {
                        assert(first_column(cols, content_name()) is None);
                    },
                    Ok(contents) => {
                        let ghost cv = first_column(cols, content_name())->0;
                        assert(contents.deep_view() == cv.map_values(|x: Seq<char>| Some(x)));
                        assert(contents.deep_view().len() == cv.len());
                        let mut i: usize = 0;
                        while i < contents.len()
                            invariant
                                *self == *old(self),
                                fmt == old(self).log_format_view(),
                                lv == line_views(lines@),
                                srcs == old(self).sources_view(),
                                cols == table_columns(fmt, lv),
                                columns_fit(cols),
                                first_column(cols, content_name()) == Some(cv),
                                contents.deep_view() == cv.map_values(|x: Seq<char>| Some(x)),
                                contents@.len() == cv.len(),
                                i <= contents@.len(),
                                forall|k: int| 0 <= k < i ==> (masked(#[trigger] cv[k], srcs) is Some),
                            decreases contents@.len() - i,
                        {
                            assert(contents.deep_view()[i as int] == Some(cv[i as int]));
                            match &contents[i] {
                                Some(c) => {
                                    if mask_variables(c.as_str(), &self.preprocess_regex).is_none() {
                                        assert(masked(cv[i as int], srcs) is None);
                                        return None;
                                    }
                                },
                                None => vstd::pervasive::unreached(),
                            }
                            i = i + 1;
                        }
                        assert(forall|k: int| 0 <= k < cv.len() ==> (masked(#[trigger] cv[k], srcs) is Some));
                        if self.max_child == 0 {
                            let line_id_key = "LineId";
                            proof {
                                reveal_strlit("LineId");
                                assert(line_id_key@ == line_id_name());
                            }
                            match frame_text_column(&df, line_id_key) {
                                Err(_) => {
                                    assert(table_rows(cols, srcs) is None);
                                },
                                Ok(ids) => {
                                    let ghost iv = first_column(cols, line_id_name())->0;
                                    assert(ids.deep_view() == iv.map_values(|x: Seq<char>| Some(x)));
                                    if !self.rows_fit(&ids, &contents, Ghost(iv), Ghost(cv)) {
                                        assert(table_rows(cols, srcs) == Some(
                                            Seq::new(
                                                min_nat(cv.len(), iv.len()),
                                                |k: int|
                                                    ClusterView {
                                                        log_id: iv[k],
                                                        event: words(masked(cv[k], srcs)->0),
                                                    },
                                            ),
                                        ));
                                        return None;
                                    }
                                },
                            }
                        }
                    },
                }
            },
        }
        assert(regex_compiles(drain_line_regex(fmt)));
        Some(self.parse(log_name, lines))
    }

    /// Whether every row of a table with line ids `ids` and messages
    /// `contents` (the line id and the words of the masked message) can be
    /// added in turn to an empty prefix tree (see [`rows_ok`]).
    fn rows_fit(
        &self,
        ids: &Vec<Option<String>>,
        contents: &Vec<Option<String>>,
        Ghost(iv): Ghost<Seq<Seq<char>>>,
        Ghost(cv): Ghost<Seq<Seq<char>>>,
    ) -> (r: bool)
        requires
            ids.deep_view() == iv.map_values(|x: Seq<char>| Some(x)),
            contents.deep_view() == cv.map_values(|x: Seq<char>| Some(x)),
            forall|k: int| 0 <= k < cv.len() ==> (masked(#[trigger] cv[k], self.sources_view()) is Some),
        ensures
            r == rows_ok(
                empty_tree(),
                Seq::new(
                    min_nat(cv.len(), iv.len()),
                    |k: int| ClusterView { log_id: iv[k], event: words(masked(cv[k], self.sources_view())->0) },
                ),
                self.depth_view(),
                self.max_child_view(),
            ),
    {
        let ghost srcs = self.sources_view();
        let ghost dl = self.depth_view();
        let ghost mc = self.max_child_view();
        let ghost rows = Seq::new(
            min_nat(cv.len(), iv.len()),
            |k: int| ClusterView { log_id: iv[k], event: words(masked(cv[k], srcs)->0) },
        );
        assert(contents.deep_view().len() == cv.len());
        assert(ids.deep_view().len() == iv.len());
        let n = if ids.len() <= contents.len() {
            ids.len()
        } else {
            contents.len()
        };
        let mut scratch = PrefixTree::new();
        proof {
            lemma_empty_tree_wf(dl, child_cap(mc));
            assert(rows.take(0) =~= Seq::<ClusterView>::empty());
        }
        let mut i: usize = 0;
        while i < n
            invariant
                dl == self.depth_view(),
                mc == self.max_child_view(),
                srcs == self.sources_view(),
                forall|k: int| 0 <= k < cv.len() ==> (masked(#[trigger] cv[k], srcs) is Some),
                contents.deep_view() == cv.map_values(|x: Seq<char>| Some(x)),
                ids.deep_view() == iv.map_values(|x: Seq<char>| Some(x)),
                n == min_nat(cv.len(), iv.len()),
                n <= contents@.len(),
                n <= ids@.len(),
                rows == Seq::new(
                    n as nat,
                    |k: int| ClusterView { log_id: iv[k], event: words(masked(cv[k], srcs)->0) },
                ),
                i <= n,
                wf_tree(scratch@, dl, child_cap(mc)),
                scratch@ == insert_all(empty_tree(), rows.take(i as int), dl, mc),
                rows_ok(empty_tree(), rows.take(i as int), dl, mc),
            decreases n - i,
        {
            assert(ids.deep_view()[i as int] == Some(iv[i as int]));
            assert(contents.deep_view()[i as int] == Some(cv[i as int]));
            assert(rows.take(i + 1).drop_last() =~= rows.take(i as int));
            assert(rows.take(i + 1).last() == rows[i as int]);
            match (&ids[i], &contents[i]) {
                (Some(id), Some(content)) => {
                    assert(masked(cv[i as int], srcs) is Some);
                    let processed = self.preprocess(content.as_str());
                    let tokens = split_words(processed.as_str());
                    let log_clust = LogCluster::new(id.clone(), tokens);
                    assert(log_clust@ == rows[i as int]);
                    if !scratch.try_insert(&log_clust, self.depth, self.max_child) {
                        proof {
                            if rows_ok(empty_tree(), rows, dl, mc) {
                                lemma_rows_ok_take(empty_tree(), rows, dl, mc, i + 1);
                            }
                        }
                        return false;
                    }
                },
                _ => vstd::pervasive::unreached(),
            }
            i = i + 1;
        }
        assert(rows.take(n as int) =~= rows);
        true
    }

    /// The lines that show the subtree of the prefix tree at `node`, its
    /// own line indented by `dep` tabs (see [`subtree_lines`]).
    pub fn print_tree(&self, root_node: &PrefixTree, node: usize, dep: usize) -> (r: Vec<String>)
        requires
            wf_tree(root_node@, self.depth_view(), child_cap(self.max_child_view())),
            node < root_node@.len(),
            dep + (root_node@.len() - root_node@[node as int].depth) <= usize::MAX + 1,
        ensures
            r.deep_view() == subtree_lines(root_node@, node as int, dep as nat, self.depth_view()),
    {
        let room = if self.max_child == 0 {
            1
        } else {
            self.max_child
        };
        root_node.subtree_text(node, dep, self.depth, room)
    }
}

} // verus!
