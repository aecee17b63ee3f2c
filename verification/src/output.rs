//! The forms a report can be written in.

use vstd::prelude::*;
use vstd::string::StringExecFns;
use crate::parser::str_eq;
use crate::models::{AnalysisReport, CriticalPathNode, ServiceBottleneckRank, TraceAnalysis};
use crate::dependency_graph::DependencyEdge;
use crate::text::{decimal, decimal_text, joined, lemma_joined_push};
use crate::table_store::{cell_lines, row_cells, table_add_row, table_cells, table_new, table_rows, table_text, table_to_string};

verus! {

/// How a report is written out.
#[derive(Debug, Clone, Copy, PartialEq, Eq, Structural)]
pub enum OutputFormat {
    Text,
    Json,
    Dot,
}

/// The lower-case form of a string, as `str::to_lowercase` gives it.
pub uninterp spec fn lowercase(s: Seq<char>) -> Seq<char>;

/// Calls `str::to_lowercase`, which maps each character of `s` to its
/// Unicode lower case; the contract names its result `lowercase(s)` and
/// says nothing more of it.
#[verifier::external_body]
fn to_lowercase(s: &str) -> (res: String)
    ensures
        res@ == lowercase(s@),
{
    s.to_lowercase()
}

/// The format named by a lower-case name.
pub open spec fn format_named(lower: Seq<char>) -> Option<OutputFormat> {
    if lower == "text"@ {
        Some(OutputFormat::Text)
    } else if lower == "json"@ {
        Some(OutputFormat::Json)
    } else if lower == "dot"@ {
        Some(OutputFormat::Dot)
    } else {
        None
    }
}

/// The message for a name that names no format.
pub open spec fn invalid_format_message(name: Seq<char>) -> Seq<char> {
    "Invalid output format: "@ + name + ". Valid formats: text, json, dot"@
}

/// The format that the lower-cased name `lower` names; `name` is the name
/// as given, for the error message.
pub fn format_from_lowercase(lower: &String, name: &str) -> (res: Result<OutputFormat, String>)
    ensures
        match format_named(lower@) {
            Some(f) => res == Ok::<OutputFormat, String>(f),
            None => res matches Err(m) && m@ == invalid_format_message(name@),
        },
{
    if str_eq(lower, "text") {
        Ok(OutputFormat::Text)
    } else if str_eq(lower, "json") {
        Ok(OutputFormat::Json)
    } else if str_eq(lower, "dot") {
        Ok(OutputFormat::Dot)
    } else {
        let mut m = String::from_str("Invalid output format: ");
        m.append(name);
        m.append(". Valid formats: text, json, dot");
        Err(m)
    }
}

/// Reads a format name, in any case.
pub fn parse_output_format(s: &str) -> (res: Result<OutputFormat, String>)
    ensures
        match format_named(lowercase(s@)) {
            Some(f) => res == Ok::<OutputFormat, String>(f),
            None => res matches Err(m) && m@ == invalid_format_message(s@),
        },
{
    let lower = to_lowercase(s);
    format_from_lowercase(&lower, s)
}

impl std::str::FromStr for OutputFormat {
    type Err = String;

    fn from_str(s: &str) -> (res: Result<OutputFormat, String>)
        ensures
            match format_named(lowercase(s@)) {
                Some(f) => res == Ok::<OutputFormat, String>(f),
                None => res matches Err(m) && m@ == invalid_format_message(s@),
            },
    {
        parse_output_format(s)
    }
}


/// The mark of an asynchronous node.
pub open spec fn async_marker(n: CriticalPathNode) -> Seq<char> {
    if n.is_async {
        "⇝"@
    } else {
        Seq::empty()
    }
}

/// A node on the path column: service, mark, duration and queue time.
pub open spec fn path_label(n: CriticalPathNode) -> Seq<char> {
    n.service_name@ + async_marker(n) + "("@ + decimal(n.duration as nat) + "μs"@ + match n.async_propagation_delay {
        Some(d) => " [queue:"@ + decimal(d as nat) + "μs]"@,
        None => Seq::empty(),
    } + ")"@
}

/// A node on the bottleneck column: service, mark and duration.
pub open spec fn bottleneck_label(n: CriticalPathNode) -> Seq<char> {
    n.service_name@ + async_marker(n) + "("@ + decimal(n.duration as nat) + "μs)"@
}

/// The labels of the bottleneck nodes of a path, in order.
pub open spec fn bottleneck_labels(path: Seq<CriticalPathNode>) -> Seq<Seq<char>>
    decreases path.len(),
{
    if path.len() == 0 {
        Seq::empty()
    } else if path.last().is_bottleneck {
        bottleneck_labels(path.drop_last()).push(bottleneck_label(path.last()))
    } else {
        bottleneck_labels(path.drop_last())
    }
}

/// The row of one trace: its id, its total duration, its critical path,
/// and its bottleneck nodes (a mark of none where it has none).
pub open spec fn trace_row(a: TraceAnalysis) -> Seq<Seq<char>> {
    let bl = bottleneck_labels(a.critical_path@);
    seq![
        a.trace_id@,
        decimal(a.total_duration as nat),
        joined(a.critical_path@.map_values(|n: CriticalPathNode| path_label(n)), " → "@),
        if bl.len() == 0 { "无"@ } else { joined(bl, ", "@) },
    ]
}

/// The header of the critical path table.
pub open spec fn path_table_header() -> Seq<Seq<char>> {
    seq!["追踪ID"@, "总延迟(μs)"@, "关键路径"@, "瓶颈节点"@]
}

/// The rows of the critical path table: the header, then a row per trace.
pub open spec fn path_table_rows(report: AnalysisReport) -> Seq<Seq<Seq<char>>> {
    seq![path_table_header()] + report.trace_analyses@.map_values(|a: TraceAnalysis| trace_row(a))
}

/// The label of a node on the path column.
fn write_path_label(n: &CriticalPathNode) -> (s: String)
    ensures
        s@ == path_label(*n),
{
    let mut s = n.service_name.clone();
    if n.is_async {
        s.append("⇝");
    }
    s.append("(");
    s.append(decimal_text(n.duration).as_str());
    s.append("μs");
    match n.async_propagation_delay {
        Some(d) => {
            s.append(" [queue:");
            s.append(decimal_text(d).as_str());
            s.append("μs]");
        },
        None => {},
    }
    s.append(")");
    assert(s@ =~= path_label(*n));
    s
}

/// The label of a node on the bottleneck column.
fn write_bottleneck_label(n: &CriticalPathNode) -> (s: String)
    ensures
        s@ == bottleneck_label(*n),
{
    let mut s = n.service_name.clone();
    if n.is_async {
        s.append("⇝");
    }
    s.append("(");
    s.append(decimal_text(n.duration).as_str());
    s.append("μs)");
    assert(s@ =~= bottleneck_label(*n));
    s
}

/// The parts, with `sep` between each two.
pub(crate) fn join_texts(parts: &Vec<String>, sep: &str) -> (s: String)
    ensures
        s@ == joined(parts@.map_values(|p: String| p@), sep@),
{
    let mut s = String::new();
    for i in 0..parts.len()
        invariant
            s@ == joined(parts@.subrange(0, i as int).map_values(|p: String| p@), sep@),
    {
        let ghost before = parts@.subrange(0, i as int).map_values(|p: String| p@);
        proof {
            lemma_joined_push(before, sep@, parts@[i as int]@);
            assert(parts@.subrange(0, i + 1).map_values(|p: String| p@) =~= before.push(parts@[i as int]@));
        }
        if i > 0 {
            s.append(sep);
        }
        s.append(parts[i].as_str());
        assert(s@ =~= joined(parts@.subrange(0, i + 1).map_values(|p: String| p@), sep@));
    }
    assert(parts@.subrange(0, parts@.len() as int) == parts@);
    s
}

/// The row of one trace in the critical path table.
fn write_trace_row(a: &TraceAnalysis) -> (row: Vec<String>)
    ensures
        row@.map_values(|c: String| c@) == trace_row(*a),
{
    let path = &a.critical_path;
    let mut labels: Vec<String> = Vec::new();
    let mut marked: Vec<String> = Vec::new();
    for i in 0..path.len()
        invariant
            labels@.map_values(|p: String| p@) == path@.subrange(0, i as int).map_values(|n: CriticalPathNode| path_label(n)),
            marked@.map_values(|p: String| p@) == bottleneck_labels(path@.subrange(0, i as int)),
    {
        let ghost l0 = labels@;
        let ghost m0 = marked@;
        assert(path@.subrange(0, i + 1).drop_last() =~= path@.subrange(0, i as int));
        labels.push(write_path_label(&path[i]));
        assert(labels@.map_values(|p: String| p@) =~= l0.map_values(|p: String| p@).push(path_label(path@[i as int])));
        assert(path@.subrange(0, i + 1).map_values(|n: CriticalPathNode| path_label(n)) =~= path@.subrange(0, i as int).map_values(
            |n: CriticalPathNode| path_label(n),
        ).push(path_label(path@[i as int])));
        if path[i].is_bottleneck {
            marked.push(write_bottleneck_label(&path[i]));
            assert(marked@.map_values(|p: String| p@) =~= m0.map_values(|p: String| p@).push(bottleneck_label(path@[i as int])));
        }
    }
    assert(path@.subrange(0, path@.len() as int) == path@);
    let mut row: Vec<String> = Vec::new();
    row.push(a.trace_id.clone());
    row.push(decimal_text(a.total_duration));
    row.push(join_texts(&labels, " → "));
    if marked.len() == 0 {
        row.push(String::from_str("无"));
    } else {
        row.push(join_texts(&marked, ", "));
    }
    assert(row@.map_values(|c: String| c@) =~= trace_row(*a));
    row
}

/// The rows of the critical path table: a header, then for each trace its
/// id, its total duration, its critical path (each node with its service,
/// a mark if asynchronous, its duration and its queue time, joined by
/// arrows) and its bottleneck nodes (or a mark of none).
pub fn critical_path_rows(report: &AnalysisReport) -> (rows: Vec<Vec<String>>)
    ensures
        rows@.map_values(|r: Vec<String>| r@.map_values(|c: String| c@)) == path_table_rows(*report),
{
    let mut header: Vec<String> = Vec::new();
    header.push(String::from_str("追踪ID"));
    header.push(String::from_str("总延迟(μs)"));
    header.push(String::from_str("关键路径"));
    header.push(String::from_str("瓶颈节点"));
    assert(header@.map_values(|c: String| c@) =~= path_table_header());
    let mut rows: Vec<Vec<String>> = Vec::new();
    rows.push(header);
    let analyses = &report.trace_analyses;
    for i in 0..analyses.len()
        invariant
            rows@.map_values(|r: Vec<String>| r@.map_values(|c: String| c@)) == seq![path_table_header()]
                + analyses@.subrange(0, i as int).map_values(|a: TraceAnalysis| trace_row(a)),
    {
        let ghost r0 = rows@;
        rows.push(write_trace_row(&analyses[i]));
        assert(rows@.map_values(|r: Vec<String>| r@.map_values(|c: String| c@)) =~= r0.map_values(
            |r: Vec<String>| r@.map_values(|c: String| c@),
        ).push(trace_row(analyses@[i as int])));
        assert(analyses@.subrange(0, i + 1).map_values(|a: TraceAnalysis| trace_row(a)) =~= analyses@.subrange(0, i as int).map_values(
            |a: TraceAnalysis| trace_row(a),
        ).push(trace_row(analyses@[i as int])));
    }
    assert(analyses@.subrange(0, analyses@.len() as int) == analyses@);
    rows
}

/// The critical path table of a report, as `prettytable` prints it: the
/// rows of `path_table_rows`, each cell kept as the lines of its text.
pub fn format_critical_paths_table(report: &AnalysisReport) -> (s: String)
    ensures
        s@ == table_text(table_cells(path_table_rows(*report))),
{
    let rows = critical_path_rows(report);
    let ghost texts = rows@.map_values(|r: Vec<String>| r@.map_values(|c: String| c@));
    let mut table = table_new();
    for i in 0..rows.len()
        invariant
            texts == rows@.map_values(|r: Vec<String>| r@.map_values(|c: String| c@)),
            table_rows(table) == table_cells(texts.subrange(0, i as int)),
    {
        table_add_row(&mut table, &rows[i]);
        assert(rows@[i as int]@.map_values(|c: String| cell_lines(c@)) =~= row_cells(texts[i as int]));
        assert(table_cells(texts.subrange(0, i + 1)) =~= table_cells(texts.subrange(0, i as int)).push(row_cells(texts[i as int])));
    }
    assert(texts.subrange(0, rows@.len() as int) == texts);
    table_to_string(&table)
}


/// How a service node of the dependency graph is drawn.
#[derive(Debug, Clone)]
pub struct DotNodeStyle {
    pub service_name: String,
    pub label: String,
    pub fill_color: String,
    pub font_color: String,
}

/// How a call edge of the dependency graph is drawn: its pen width, its
/// colour (of line and label), and whether it is dashed (asynchronous).
#[derive(Debug, Clone)]
pub struct DotEdgeStyle {
    pub penwidth: u64,
    pub color: String,
    pub dashed: bool,
}

/// The name with each `-` written as the two characters `\n`, which the
/// graph shows as a line break.
pub open spec fn dash_breaks(name: Seq<char>) -> Seq<char>
    decreases name.len(),
{
    if name.len() == 0 {
        Seq::empty()
    } else if name.last() == '-' {
        dash_breaks(name.drop_last()) + "\\n"@
    } else {
        dash_breaks(name.drop_last()).push(name.last())
    }
}

/// The first position of a service in the ranking.
pub open spec fn first_rank(ranks: Seq<ServiceBottleneckRank>, name: Seq<char>) -> Option<int>
    decreases ranks.len(),
{
    if ranks.len() == 0 {
        None
    } else if first_rank(ranks.drop_last(), name) is Some {
        first_rank(ranks.drop_last(), name)
    } else if ranks.last().service_name@ == name {
        Some(ranks.len() - 1)
    } else {
        None
    }
}

/// The last position of a service in the ranking.
pub open spec fn last_rank(ranks: Seq<ServiceBottleneckRank>, name: Seq<char>) -> Option<int>
    decreases ranks.len(),
{
    if ranks.len() == 0 {
        None
    } else if ranks.last().service_name@ == name {
        Some(ranks.len() - 1)
    } else {
        last_rank(ranks.drop_last(), name)
    }
}

/// The fill and font colours of the service at position `i`: red, orange
/// and yellow for the first three when bottlenecks are highlighted, grey
/// otherwise.
pub open spec fn node_colors(i: int, highlight: bool) -> (Seq<char>, Seq<char>) {
    if i == 0 && highlight {
        ("#ff6b6b"@, "#ffffff"@)
    } else if i == 1 && highlight {
        ("#ffa502"@, "#ffffff"@)
    } else if i == 2 && highlight {
        ("#ffd93d"@, "#000000"@)
    } else {
        ("#e8e8e8"@, "#333333"@)
    }
}

/// The node of the service first ranked at `i`: its label shows its rank
/// if it is among the first three and bottlenecks are highlighted; its
/// colours are those of its last position.
pub open spec fn node_style_of(ranks: Seq<ServiceBottleneckRank>, i: int, highlight: bool) -> (Seq<char>, Seq<char>, Seq<char>, Seq<char>) {
    let name = ranks[i].service_name@;
    let colors = node_colors(last_rank(ranks, name)->0, highlight);
    (
        name,
        if highlight && i < 3 { dash_breaks(name) + " #"@ + decimal((i + 1) as nat) } else { dash_breaks(name) },
        colors.0,
        colors.1,
    )
}

/// The nodes of the graph: one per service, in order of first rank.
pub open spec fn node_styles(ranks: Seq<ServiceBottleneckRank>, n: int, highlight: bool) -> Seq<(Seq<char>, Seq<char>, Seq<char>, Seq<char>)>
    decreases n,
{
    if n <= 0 {
        Seq::empty()
    } else if first_rank(ranks, ranks[n - 1].service_name@) == Some(n - 1) {
        node_styles(ranks, n - 1, highlight).push(node_style_of(ranks, n - 1, highlight))
    } else {
        node_styles(ranks, n - 1, highlight)
    }
}

/// A node style's view.
pub open spec fn node_style_view(s: DotNodeStyle) -> (Seq<char>, Seq<char>, Seq<char>, Seq<char>) {
    (s.service_name@, s.label@, s.fill_color@, s.font_color@)
}

/// The style of an edge: calls that take more than 500 (or 200) on
/// average are drawn thick and red (or thicker than thin, and orange),
/// others thin and grey; asynchronous calls are dashed.
pub open spec fn edge_style_of(e: DependencyEdge) -> (u64, Seq<char>, bool) {
    if e.total_duration > 500 * e.call_count {
        (3, "#ff6b6b"@, e.is_async)
    } else if e.total_duration > 200 * e.call_count {
        (2, "#ffa502"@, e.is_async)
    } else {
        (1, "#666666"@, e.is_async)
    }
}

/// A name with each `-` written as `\n`.
fn write_dash_breaks(name: &String) -> (s: String)
    ensures
        s@ == dash_breaks(name@),
{
    let text = name.as_str();
    let n = text.unicode_len();
    let mut out = String::new();
    let mut i: usize = 0;
    while i < n
        invariant
            n == name@.len(),
            text@ == name@,
            i <= n,
            out@ == dash_breaks(name@.subrange(0, i as int)),
        decreases n - i,
    {
        assert(name@.subrange(0, i + 1).drop_last() =~= name@.subrange(0, i as int));
        let c = text.get_char(i);
        if c == '-' {
            out.append("\\n");
        } else {
            let piece = text.substring_char(i, i + 1);
            assert(piece@ =~= seq![c]);
            out.append(piece);
        }
        i = i + 1;
    }
    assert(name@.subrange(0, n as int) =~= name@);
    out
}

/// The last position of a service in the ranking.
fn find_last_rank(ranks: &Vec<ServiceBottleneckRank>, name: &String) -> (res: Option<usize>)
    ensures
        match last_rank(ranks@, name@) {
            None => res is None,
            Some(i) => res == Some(i as usize),
        },
{
    let mut i = ranks.len();
    assert(ranks@.subrange(0, i as int) =~= ranks@);
    while i > 0
        invariant
            i <= ranks@.len(),
            last_rank(ranks@, name@) == last_rank(ranks@.subrange(0, i as int), name@),
        decreases i,
    {
        assert(ranks@.subrange(0, i as int).drop_last() =~= ranks@.subrange(0, i - 1));
        if ranks[i - 1].service_name == *name {
            return Some(i - 1);
        }
        i = i - 1;
    }
    None
}

/// Whether a service is ranked before position `i`.
fn ranked_before(ranks: &Vec<ServiceBottleneckRank>, name: &String, i: usize) -> (b: bool)
    requires
        i <= ranks@.len(),
    ensures
        b == (first_rank(ranks@.subrange(0, i as int), name@) is Some),
    decreases i,
{
    if i == 0 {
        false
    } else {
        assert(ranks@.subrange(0, i as int).drop_last() =~= ranks@.subrange(0, i - 1));
        if ranked_before(ranks, name, i - 1) {
            true
        } else {
            ranks[i - 1].service_name == *name
        }
    }
}

/// A first rank among the first positions stays the first rank.
proof fn lemma_first_rank_prefix(ranks: Seq<ServiceBottleneckRank>, k: int, name: Seq<char>)
    requires
        0 <= k <= ranks.len(),
        first_rank(ranks.subrange(0, k), name) is Some,
    ensures
        first_rank(ranks, name) == first_rank(ranks.subrange(0, k), name),
    decreases ranks.len() - k,
{
    if k < ranks.len() {
        assert(ranks.drop_last().subrange(0, k) =~= ranks.subrange(0, k));
        lemma_first_rank_prefix(ranks.drop_last(), k, name);
    } else {
        assert(ranks.subrange(0, k) =~= ranks);
    }
}

/// No first rank among the first positions means the first rank, if any, is
/// later.
proof fn lemma_first_rank_after(ranks: Seq<ServiceBottleneckRank>, k: int, name: Seq<char>)
    requires
        0 <= k < ranks.len(),
        first_rank(ranks.subrange(0, k), name) is None,
        ranks[k].service_name@ == name,
    ensures
        first_rank(ranks, name) == Some(k),
    decreases ranks.len() - k,
{
    if k + 1 < ranks.len() {
        assert(ranks.drop_last().subrange(0, k) =~= ranks.subrange(0, k));
        assert(ranks.drop_last()[k] == ranks[k]);
        lemma_first_rank_after(ranks.drop_last(), k, name);
    } else {
        assert(ranks.drop_last() =~= ranks.subrange(0, k));
    }
}

/// How the services of the report are drawn in its dependency graph: one
/// node per service, in order of first rank, its label the name with line
/// breaks for dashes (and its rank if it is among the first three and
/// bottlenecks are highlighted), its colours those of its rank.
pub fn dot_node_styles(report: &AnalysisReport, highlight_bottlenecks: bool) -> (styles: Vec<DotNodeStyle>)
    ensures
        styles@.map_values(|s: DotNodeStyle| node_style_view(s)) == node_styles(
            report.service_ranks@,
            report.service_ranks@.len() as int,
            highlight_bottlenecks,
        ),
{
    let ranks = &report.service_ranks;
    let mut styles: Vec<DotNodeStyle> = Vec::new();
    for i in 0..ranks.len()
        invariant
            styles@.map_values(|s: DotNodeStyle| node_style_view(s)) == node_styles(ranks@, i as int, highlight_bottlenecks),
    {
        let name = &ranks[i].service_name;
        let ghost s0 = styles@;
        let seen = ranked_before(ranks, name, i);
        proof {
            if seen {
                lemma_first_rank_prefix(ranks@, i as int, name@);
                assert(first_rank(ranks@.subrange(0, i as int), name@)->0 < i) by {
                    lemma_first_rank_range(ranks@.subrange(0, i as int), name@);
                }
            } else {
                lemma_first_rank_after(ranks@, i as int, name@);
            }
        }
        if !seen {
            let last = match find_last_rank(ranks, name) {
                Some(j) => j,
                None => i,
            };
            proof {
                lemma_last_rank_some(ranks@, i as int);
            }
            let (fill, font) = if last == 0 && highlight_bottlenecks {
                ("#ff6b6b", "#ffffff")
            } else if last == 1 && highlight_bottlenecks {
                ("#ffa502", "#ffffff")
            } else if last == 2 && highlight_bottlenecks {
                ("#ffd93d", "#000000")
            } else {
                ("#e8e8e8", "#333333")
            };
            let mut label = write_dash_breaks(name);
            if highlight_bottlenecks && i < 3 {
                label.append(" #");
                label.append(crate::text::decimal_text((i + 1) as u64).as_str());
            }
            styles.push(DotNodeStyle {
                service_name: name.clone(),
                label,
                fill_color: String::from_str(fill),
                font_color: String::from_str(font),
            });
            assert(styles@.map_values(|s: DotNodeStyle| node_style_view(s)) =~= s0.map_values(|s: DotNodeStyle| node_style_view(s)).push(
                node_style_of(ranks@, i as int, highlight_bottlenecks),
            ));
        }
    }
    styles
}

/// A first rank is a position of the service.
proof fn lemma_first_rank_range(ranks: Seq<ServiceBottleneckRank>, name: Seq<char>)
    ensures
        first_rank(ranks, name) matches Some(i) ==> 0 <= i < ranks.len() && ranks[i].service_name@ == name,
    decreases ranks.len(),
{
    if ranks.len() > 0 {
        lemma_first_rank_range(ranks.drop_last(), name);
    }
}

/// A ranked service has a last position, and it is at or after any of its
/// positions.
proof fn lemma_last_rank_some(ranks: Seq<ServiceBottleneckRank>, i: int)
    requires
        0 <= i < ranks.len(),
    ensures
        last_rank(ranks, ranks[i].service_name@) matches Some(j) && i <= j < ranks.len(),
    decreases ranks.len(),
{
    if i < ranks.len() - 1 {
        lemma_last_rank_some(ranks.drop_last(), i);
        assert(ranks.drop_last()[i] == ranks[i]);
    }
}

/// How a call edge of the dependency graph is drawn.
pub fn dot_edge_style(edge: &DependencyEdge) -> (style: DotEdgeStyle)
    ensures
        (style.penwidth, style.color@, style.dashed) == edge_style_of(*edge),
{
    let total = edge.total_duration as u128;
    let count = edge.call_count as u128;
    let (penwidth, color) = if total > 500 * count {
        (3u64, "#ff6b6b")
    } else if total > 200 * count {
        (2u64, "#ffa502")
    } else {
        (1u64, "#666666")
    };
    DotEdgeStyle { penwidth, color: String::from_str(color), dashed: edge.is_async }
}

/// The bottleneck nodes of a path, each written as its service, a mark if
/// asynchronous, and its duration.
pub open spec fn written_bottlenecks(path: Seq<CriticalPathNode>) -> Seq<Seq<char>> {
    path.filter(|n: CriticalPathNode| n.is_bottleneck).map_values(
        |n: CriticalPathNode|
            n.service_name@ + (if n.is_async { "⇝"@ } else { Seq::<char>::empty() }) + "("@ + decimal(n.duration as nat)
                + "μs)"@,
    )
}

/// The labels of a path's bottlenecks are its bottleneck nodes, in order.
proof fn lemma_bottleneck_labels(path: Seq<CriticalPathNode>)
    ensures
        bottleneck_labels(path) == written_bottlenecks(path),
    decreases path.len(),
{
    reveal(Seq::filter);
    if path.len() > 0 {
        lemma_bottleneck_labels(path.drop_last());
        let f = path.drop_last().filter(|n: CriticalPathNode| n.is_bottleneck);
        if path.last().is_bottleneck {
            assert(path.filter(|n: CriticalPathNode| n.is_bottleneck) == f.push(path.last()));
        } else {
            assert(path.filter(|n: CriticalPathNode| n.is_bottleneck) == f);
        }
        assert(written_bottlenecks(path) =~= if path.last().is_bottleneck {
            written_bottlenecks(path.drop_last()).push(bottleneck_label(path.last()))
        } else {
            written_bottlenecks(path.drop_last())
        });
    }
}

/// In the critical path table, the row of trace `t` names the trace and its
/// total duration, and lists every bottleneck node of its critical path, in
/// path order, each as its service, a mark if asynchronous and its
/// duration, joined by ", "; it has the mark of none exactly where the path
/// has no bottleneck.
pub proof fn law_table_lists_every_bottleneck(report: AnalysisReport, t: int)
    requires
        0 <= t < report.trace_analyses@.len(),
    ensures
        ({
            let row = path_table_rows(report)[t + 1];
            let a = report.trace_analyses@[t];
            let written = written_bottlenecks(a.critical_path@);
            &&& path_table_rows(report).len() == report.trace_analyses@.len() + 1
            &&& row.len() == 4
            &&& row[0] == a.trace_id@
            &&& row[1] == decimal(a.total_duration as nat)
            &&& row[3] == if written.len() == 0 { "无"@ } else { joined(written, ", "@) }
        }),
{
    lemma_bottleneck_labels(report.trace_analyses@[t].critical_path@);
    assert(path_table_rows(report)[t + 1] == trace_row(report.trace_analyses@[t]));
}

} // verus!
