//! The text report: a boxed summary of a report, its ranking and its
//! dependency graph, one line at a time. The figures with decimals (scores,
//! average durations, average queue latencies) are written by the caller.

use vstd::prelude::*;
use vstd::string::{StrSliceExecFns, StringExecFns};
use crate::models::{AnalysisReport, ServiceBottleneckRank};
use crate::dependency_graph::DependencyEdge;
use crate::output::join_texts;
use crate::text::{decimal, decimal_text, joined};

verus! {

/// `piece` written `n` times.
pub open spec fn repeated(piece: Seq<char>, n: nat) -> Seq<char>
    decreases n,
{
    if n == 0 {
        Seq::empty()
    } else {
        repeated(piece, (n - 1) as nat) + piece
    }
}

/// `s` followed by spaces up to `width` characters (`{:<width}`).
pub open spec fn padded_right(s: Seq<char>, width: nat) -> Seq<char> {
    if s.len() >= width {
        s
    } else {
        s + repeated(" "@, (width - s.len()) as nat)
    }
}

/// `s` between spaces up to `width` characters, the odd one on the right
/// (`{:^width}`).
pub open spec fn centered(s: Seq<char>, width: nat) -> Seq<char> {
    if s.len() >= width {
        s
    } else {
        let pad = (width - s.len()) as nat;
        repeated(" "@, pad / 2) + s + repeated(" "@, (pad - pad / 2) as nat)
    }
}

/// A boxed line of cells, each padded to its width, one space apart.
pub open spec fn row_text(cells: Seq<(Seq<char>, nat)>) -> Seq<char> {
    "║ "@ + joined(cells.map_values(|c: (Seq<char>, nat)| padded_right(c.0, c.1)), " "@) + " ║"@
}

/// A border line of the box.
pub open spec fn border(left: Seq<char>, right: Seq<char>) -> Seq<char> {
    left + repeated("═"@, 78) + right
}

/// A boxed, centred title line.
pub open spec fn title_line(t: Seq<char>) -> Seq<char> {
    "║"@ + centered(t, 78) + "║"@
}

/// The line of rank `i` (from 0): its place, a star for the first three,
/// the service, the score as written, its total contribution, appearance
/// count and critical path count.
pub open spec fn rank_line(i: nat, r: ServiceBottleneckRank, score: Seq<char>) -> Seq<char> {
    row_text(
        seq![
            (decimal(i + 1) + if i < 3 { "★"@ } else { " "@ }, 3nat),
            (r.service_name@, 25nat),
            (score, 12nat),
            (decimal(r.total_contribution as nat), 12nat),
            (decimal(r.appearance_count as nat), 10nat),
            (decimal(r.critical_path_count as nat), 12nat),
        ],
    )
}

/// The line of an edge: caller, callee, asynchronous or not, the average
/// duration as written, the call count, and the average queue latency as
/// written (a dash where no call waited in a queue).
pub open spec fn edge_line(e: DependencyEdge, avg: Seq<char>, queue: Seq<char>) -> Seq<char> {
    row_text(
        seq![
            (e.from@, 22nat),
            (e.to@, 22nat),
            (if e.is_async { "异步"@ } else { "同步"@ }, 7nat),
            (avg, 10nat),
            (decimal(e.call_count as nat), 8nat),
            (if e.queue_latency_count > 0 { queue } else { "-"@ }, 7nat),
        ],
    )
}

/// The lines before the ranking.
pub open spec fn report_head(r: AnalysisReport) -> Seq<Seq<char>> {
    seq![
        border("╔"@, "╗"@),
        title_line("分布式追踪瓶颈分析报告"@),
        border("╠"@, "╣"@),
        row_text(seq![("总追踪数:"@, 20nat), (decimal(r.total_traces as nat), 54nat)]),
        row_text(seq![("总服务数:"@, 20nat), (decimal(r.total_services as nat), 54nat)]),
        border("╠"@, "╣"@),
        title_line("瓶颈服务排名"@),
        border("╠"@, "╣"@),
        row_text(
            seq![
                ("排名"@, 3nat),
                ("服务名称"@, 25nat),
                ("瓶颈得分"@, 12nat),
                ("总贡献(μs)"@, 12nat),
                ("出现次数"@, 10nat),
                ("关键路径次数"@, 12nat),
            ],
        ),
        border("╠"@, "╣"@),
    ]
}

/// The lines between the ranking and the edges.
pub open spec fn report_middle() -> Seq<Seq<char>> {
    seq![
        border("╠"@, "╣"@),
        title_line("服务依赖图"@),
        border("╠"@, "╣"@),
        row_text(
            seq![
                ("调用方"@, 22nat),
                ("被调用方"@, 22nat),
                ("类型"@, 7nat),
                ("平均延迟"@, 10nat),
                ("调用次数"@, 8nat),
                ("队列延迟"@, 7nat),
            ],
        ),
        border("╠"@, "╣"@),
    ]
}

/// The lines of the text report, given the written scores of the ranks and
/// the written average durations and queue latencies of the edges.
pub open spec fn report_lines(r: AnalysisReport, scores: Seq<Seq<char>>, avgs: Seq<Seq<char>>, queues: Seq<Seq<char>>) -> Seq<
    Seq<char>,
> {
    report_head(r) + Seq::new(r.service_ranks@.len(), |i: int| rank_line(i as nat, r.service_ranks@[i], scores[i]))
        + report_middle() + Seq::new(
        r.dependency_graph@.len(),
        |i: int| edge_line(r.dependency_graph@[i], avgs[i], queues[i]),
    ) + seq![border("╚"@, "╝"@)]
}

/// `piece` written `n` times.
fn write_repeated(piece: &str, n: usize) -> (s: String)
    ensures
        s@ == repeated(piece@, n as nat),
{
    let mut s = String::new();
    for i in 0..n
        invariant
            s@ == repeated(piece@, i as nat),
    {
        s.append(piece);
    }
    s
}

/// `s` padded with spaces to `width` characters.
fn write_padded(s: &str, width: usize) -> (r: String)
    ensures
        r@ == padded_right(s@, width as nat),
{
    let n = s.unicode_len();
    let mut r = String::from_str(s);
    if n < width {
        let fill = write_repeated(" ", width - n);
        r.append(fill.as_str());
    }
    r
}

/// A boxed line of cells.
fn write_row(cells: &Vec<(String, usize)>) -> (s: String)
    ensures
        s@ == row_text(cells@.map_values(|c: (String, usize)| (c.0@, c.1 as nat))),
{
    let mut parts: Vec<String> = Vec::new();
    for i in 0..cells.len()
        invariant
            parts@.len() == i,
            forall|k: int| 0 <= k < i ==> (#[trigger] parts@[k])@ == padded_right(cells@[k].0@, cells@[k].1 as nat),
    {
        parts.push(write_padded(cells[i].0.as_str(), cells[i].1));
    }
    let body = join_texts(&parts, " ");
    let ghost cv = cells@.map_values(|c: (String, usize)| (c.0@, c.1 as nat));
    assert(parts@.map_values(|p: String| p@) =~= cv.map_values(|c: (Seq<char>, nat)| padded_right(c.0, c.1)));
    let mut s = String::from_str("║ ");
    s.append(body.as_str());
    s.append(" ║");
    s
}

/// A border line.
fn write_border(left: &str, right: &str) -> (s: String)
    ensures
        s@ == border(left@, right@),
{
    let mut s = String::from_str(left);
    let bar = write_repeated("═", 78);
    s.append(bar.as_str());
    s.append(right);
    s
}

/// A title line.
fn write_title(t: &str) -> (s: String)
    ensures
        s@ == title_line(t@),
{
    let n = t.unicode_len();
    let mut s = String::from_str("║");
    if n >= 78 {
        s.append(t);
    } else {
        let pad = 78 - n;
        let left = write_repeated(" ", pad / 2);
        let right = write_repeated(" ", pad - pad / 2);
        s.append(left.as_str());
        s.append(t);
        s.append(right.as_str());
    }
    s.append("║");
    s
}

/// Two cells of a row.
fn cells2(a: String, wa: usize, b: String, wb: usize) -> (v: Vec<(String, usize)>)
    ensures
        v@.map_values(|c: (String, usize)| (c.0@, c.1 as nat)) == seq![(a@, wa as nat), (b@, wb as nat)],
{
    let mut v: Vec<(String, usize)> = Vec::new();
    v.push((a, wa));
    v.push((b, wb));
    assert(v@.map_values(|c: (String, usize)| (c.0@, c.1 as nat)) =~= seq![(a@, wa as nat), (b@, wb as nat)]);
    v
}

/// Six cells of a row.
fn cells6(
    a: String,
    wa: usize,
    b: String,
    wb: usize,
    c: String,
    wc: usize,
    d: String,
    wd: usize,
    e: String,
    we: usize,
    f: String,
    wf: usize,
) -> (v: Vec<(String, usize)>)
    ensures
        v@.map_values(|x: (String, usize)| (x.0@, x.1 as nat)) == seq![
            (a@, wa as nat),
            (b@, wb as nat),
            (c@, wc as nat),
            (d@, wd as nat),
            (e@, we as nat),
            (f@, wf as nat),
        ],
{
    let mut v: Vec<(String, usize)> = Vec::new();
    v.push((a, wa));
    v.push((b, wb));
    v.push((c, wc));
    v.push((d, wd));
    v.push((e, we));
    v.push((f, wf));
    assert(v@.map_values(|x: (String, usize)| (x.0@, x.1 as nat)) =~= seq![
        (a@, wa as nat),
        (b@, wb as nat),
        (c@, wc as nat),
        (d@, wd as nat),
        (e@, we as nat),
        (f@, wf as nat),
    ]);
    v
}

/// The line of rank `i`.
fn write_rank_line(i: usize, r: &ServiceBottleneckRank, score: &String) -> (s: String)
    requires
        i < usize::MAX,
    ensures
        s@ == rank_line(i as nat, *r, score@),
{
    let mut place = decimal_text((i + 1) as u64);
    if i < 3 {
        place.append("★");
    } else {
        place.append(" ");
    }
    let cells = cells6(
        place,
        3,
        r.service_name.clone(),
        25,
        score.clone(),
        12,
        decimal_text(r.total_contribution),
        12,
        decimal_text(r.appearance_count as u64),
        10,
        decimal_text(r.critical_path_count as u64),
        12,
    );
    write_row(&cells)
}

/// The line of an edge.
fn write_edge_line(e: &DependencyEdge, avg: &String, queue: &String) -> (s: String)
    ensures
        s@ == edge_line(*e, avg@, queue@),
{
    let kind = if e.is_async { String::from_str("异步") } else { String::from_str("同步") };
    let q = if e.queue_latency_count > 0 { queue.clone() } else { String::from_str("-") };
    let cells = cells6(
        e.from.clone(),
        22,
        e.to.clone(),
        22,
        kind,
        7,
        avg.clone(),
        10,
        decimal_text(e.call_count as u64),
        8,
        q,
        7,
    );
    write_row(&cells)
}

/// The lines of the text report of `report`: a box with the numbers of
/// traces and services, the ranking (the first three starred) and the
/// dependency edges. `scores[i]` is the written score of rank `i`;
/// `avgs[i]` and `queues[i]` are the written average duration and average
/// queue latency of edge `i` (a dash stands for the latter where no call of
/// the edge waited in a queue).
pub fn text_report_lines(report: &AnalysisReport, scores: &Vec<String>, avgs: &Vec<String>, queues: &Vec<String>) -> (lines:
    Vec<String>)
    requires
        scores@.len() == report.service_ranks@.len(),
        avgs@.len() == report.dependency_graph@.len(),
        queues@.len() == report.dependency_graph@.len(),
    ensures
        lines@.map_values(|l: String| l@) == report_lines(
            *report,
            scores@.map_values(|s: String| s@),
            avgs@.map_values(|s: String| s@),
            queues@.map_values(|s: String| s@),
        ),
{
    let mut lines: Vec<String> = Vec::new();
    lines.push(write_border("╔", "╗"));
    lines.push(write_title("分布式追踪瓶颈分析报告"));
    lines.push(write_border("╠", "╣"));
    lines.push(write_row(&cells2(String::from_str("总追踪数:"), 20, decimal_text(report.total_traces as u64), 54)));
    lines.push(write_row(&cells2(String::from_str("总服务数:"), 20, decimal_text(report.total_services as u64), 54)));
    lines.push(write_border("╠", "╣"));
    lines.push(write_title("瓶颈服务排名"));
    lines.push(write_border("╠", "╣"));
    lines.push(
        write_row(
            &cells6(
                String::from_str("排名"),
                3,
                String::from_str("服务名称"),
                25,
                String::from_str("瓶颈得分"),
                12,
                String::from_str("总贡献(μs)"),
                12,
                String::from_str("出现次数"),
                10,
                String::from_str("关键路径次数"),
                12,
            ),
        ),
    );
    lines.push(write_border("╠", "╣"));
    assert(lines@.map_values(|l: String| l@) =~= report_head(*report));
    let ghost sv = scores@.map_values(|s: String| s@);
    let ghost av = avgs@.map_values(|s: String| s@);
    let ghost qv = queues@.map_values(|s: String| s@);
    let ranks = &report.service_ranks;
    for i in 0..ranks.len()
        invariant
            ranks == &report.service_ranks,
            scores@.len() == ranks@.len(),
            sv == scores@.map_values(|s: String| s@),
            lines@.map_values(|l: String| l@) == report_head(*report) + Seq::new(
                i as nat,
                |k: int| rank_line(k as nat, ranks@[k], sv[k]),
            ),
    {
        let line = write_rank_line(i, &ranks[i], &scores[i]);
        assert(sv[i as int] == scores@[i as int]@);
        let ghost before = lines@.map_values(|l: String| l@);
        lines.push(line);
        assert(lines@.map_values(|l: String| l@) =~= before.push(rank_line(i as nat, ranks@[i as int], sv[i as int])));
        assert(lines@.map_values(|l: String| l@) =~= report_head(*report) + Seq::new(
            (i + 1) as nat,
            |k: int| rank_line(k as nat, ranks@[k], sv[k]),
        ));
    }
    let ghost mid_start = lines@.map_values(|l: String| l@);
    lines.push(write_border("╠", "╣"));
    lines.push(write_title("服务依赖图"));
    lines.push(write_border("╠", "╣"));
    lines.push(
        write_row(
            &cells6(
                String::from_str("调用方"),
                22,
                String::from_str("被调用方"),
                22,
                String::from_str("类型"),
                7,
                String::from_str("平均延迟"),
                10,
                String::from_str("调用次数"),
                8,
                String::from_str("队列延迟"),
                7,
            ),
        ),
    );
    lines.push(write_border("╠", "╣"));
    assert(lines@.map_values(|l: String| l@) =~= mid_start + report_middle());
    let ghost head = lines@.map_values(|l: String| l@);
    let edges = &report.dependency_graph;
    for i in 0..edges.len()
        invariant
            edges == &report.dependency_graph,
            avgs@.len() == edges@.len(),
            queues@.len() == edges@.len(),
            av == avgs@.map_values(|s: String| s@),
            qv == queues@.map_values(|s: String| s@),
            lines@.map_values(|l: String| l@) == head + Seq::new(i as nat, |k: int| edge_line(edges@[k], av[k], qv[k])),
    {
        let line = write_edge_line(&edges[i], &avgs[i], &queues[i]);
        assert(av[i as int] == avgs@[i as int]@ && qv[i as int] == queues@[i as int]@);
        let ghost before = lines@.map_values(|l: String| l@);
        lines.push(line);
        assert(lines@.map_values(|l: String| l@) =~= before.push(edge_line(edges@[i as int], av[i as int], qv[i as int])));
        assert(lines@.map_values(|l: String| l@) =~= head + Seq::new(
            (i + 1) as nat,
            |k: int| edge_line(edges@[k], av[k], qv[k]),
        ));
    }
    let ghost body = lines@.map_values(|l: String| l@);
    lines.push(write_border("╚", "╝"));
    assert(lines@.map_values(|l: String| l@) =~= body.push(border("╚"@, "╝"@)));
    assert(lines@.map_values(|l: String| l@) =~= report_lines(*report, sv, av, qv));
    lines
}

} // verus!
