//! Hooks: shell commands that run before or after a tool, chosen by rules,
//! and the report of what they printed.
use vstd::prelude::*;
use crate::config::{joins, path_join};
use crate::memory::views_of;
use crate::text::{
    trim, chars_eq, chars_of, decimal, extend_all, extend_range, extend_str, is_blank,
    lemma_trim_end_keeps, line_ranges, lines, push_decimal, string_from, string_of, trim_end,
    trim_end_to, trim_range,
};

verus! {

/// When a hook runs: before a tool or after it.
#[derive(Debug, Clone, Copy, PartialEq, Eq, Structural)]
pub enum HookEvent {
    PreTool,
    PostTool,
}

/// A rule of the hook configuration: on `event`, for the tools named in
/// `tools` (all tools where it is empty, and `*` names all), run `command`
/// with a time limit of `timeout` seconds.
#[derive(Debug, Clone, PartialEq, Eq)]
pub struct HookRule {
    pub event: HookEvent,
    pub tools: Vec<String>,
    pub command: String,
    pub timeout: u64,
}

/// The hook configuration of a project.
#[derive(Debug, Clone, PartialEq, Eq)]
pub struct HookConfig {
    pub hooks: Vec<HookRule>,
}

/// What running one hook gave.
#[derive(Debug, Clone, PartialEq, Eq)]
pub struct HookRun {
    pub command: String,
    pub status: String,
    pub stdout: String,
    pub stderr: String,
    pub elapsed_ms: u128,
}

/// A hook run as plain values.
pub struct HookRunModel {
    pub command: Seq<char>,
    pub status: Seq<char>,
    pub stdout: Seq<char>,
    pub stderr: Seq<char>,
    pub elapsed_ms: u128,
}

impl View for HookRun {
    type V = HookRunModel;

    open spec fn view(&self) -> HookRunModel {
        HookRunModel {
            command: self.command@,
            status: self.status@,
            stdout: self.stdout@,
            stderr: self.stderr@,
            elapsed_ms: self.elapsed_ms,
        }
    }
}

/// The time limit of a rule that names none, in seconds.
pub open spec fn spec_default_timeout() -> u64 {
    30
}

/// The time limit of a rule that names none, in seconds.
pub fn default_timeout_secs() -> (r: u64)
    ensures
        r == spec_default_timeout(),
{
    30
}

/// The time limit a hook runs under: its own, held between 1 and 600 seconds.
pub open spec fn effective_timeout(t: u64) -> u64 {
    if t < 1 {
        1
    } else if t > 600 {
        600
    } else {
        t
    }
}

/// The time limit a hook runs under: its own, held between 1 and 600 seconds.
pub fn hook_timeout_secs(hook: &HookRule) -> (r: u64)
    ensures
        r == effective_timeout(hook.timeout),
{
    if hook.timeout < 1 {
        1
    } else if hook.timeout > 600 {
        600
    } else {
        hook.timeout
    }
}

/// A rule that names no time limit runs under the default one unchanged.
pub proof fn lemma_default_timeout_kept()
    ensures
        effective_timeout(spec_default_timeout()) == spec_default_timeout(),
{
}

/// Whether a rule's tool list takes in the tool `name`: an empty list takes
/// in every tool, and so does an entry `*`; else an entry must be the name.
pub open spec fn tool_matches(tools: Seq<Seq<char>>, name: Seq<char>) -> bool {
    tools.len() == 0 || exists|i: int| 0 <= i < tools.len() && (#[trigger] tools[i] == "*"@ || tools[i] == name)
}

/// Whether a rule's tool list takes in the tool `tool_name`.
pub fn hook_matches_tool(hook: &HookRule, tool_name: &str) -> (r: bool)
    ensures
        r == tool_matches(views_of(hook.tools@), tool_name@),
{
    let ghost tools = views_of(hook.tools@);
    if hook.tools.len() == 0 {
        return true;
    }
    let star = chars_of("*");
    let name = chars_of(tool_name);
    let mut i: usize = 0;
    while i < hook.tools.len()
        invariant
            i <= hook.tools@.len() == tools.len(),
            tools == views_of(hook.tools@),
            star@ == "*"@,
            name@ == tool_name@,
            forall|k: int| 0 <= k < i ==> !(#[trigger] tools[k] == "*"@ || tools[k] == tool_name@),
        decreases hook.tools@.len() - i,
    {
        let t = chars_of(hook.tools[i].as_str());
        if chars_eq(&t, &star) || chars_eq(&t, &name) {
            proof {
                assert(tools[i as int] == "*"@ || tools[i as int] == tool_name@);
            }
            return true;
        }
        i = i + 1;
    }
    false
}

/// Whether a rule applies to an event for a tool.
pub open spec fn rule_applies(h: HookRule, event: HookEvent, name: Seq<char>) -> bool {
    h.event == event && tool_matches(views_of(h.tools@), name)
}

/// The rules that apply to an event for a tool, in order.
pub open spec fn applicable_rules(hooks: Seq<HookRule>, event: HookEvent, name: Seq<char>) -> Seq<HookRule>
    decreases hooks.len(),
{
    if hooks.len() == 0 {
        seq![]
    } else {
        applicable_rules(hooks.drop_last(), event, name) + (if rule_applies(hooks.last(), event, name) {
            seq![hooks.last()]
        } else {
            seq![]
        })
    }
}

/// The rules that a list of references points to.
pub open spec fn rules_of(v: Seq<&HookRule>) -> Seq<HookRule> {
    v.map_values(|h: &HookRule| *h)
}

/// The rules of a configuration that apply to `event` for the tool
/// `tool_name`, in the order of the configuration.
pub fn matching_hooks<'a>(config: &'a HookConfig, event: HookEvent, tool_name: &str) -> (r: Vec<&'a HookRule>)
    ensures
        rules_of(r@) == applicable_rules(config.hooks@, event, tool_name@),
{
    let ghost hs = config.hooks@;
    let mut out: Vec<&'a HookRule> = Vec::new();
    let mut i: usize = 0;
    while i < config.hooks.len()
        invariant
            i <= config.hooks@.len(),
            hs == config.hooks@,
            rules_of(out@) == applicable_rules(hs.take(i as int), event, tool_name@),
        decreases config.hooks@.len() - i,
    {
        let hook = &config.hooks[i];
        proof {
            assert(hs.take(i + 1).drop_last() =~= hs.take(i as int));
            assert(hs.take(i + 1).last() == hs[i as int]);
        }
        let ghost prev = out@;
        if hook.event == event && hook_matches_tool(hook, tool_name) {
            out.push(hook);
            proof {
                assert(rules_of(out@) =~= rules_of(prev).push(*hook));
            }
        }
        proof {
            assert(rules_of(out@) =~= applicable_rules(hs.take(i + 1), event, tool_name@));
        }
        i = i + 1;
    }
    proof {
        assert(hs.take(config.hooks@.len() as int) =~= hs);
    }
    out
}

/// The name of an event, as its `Debug` form writes it.
pub open spec fn event_name(event: HookEvent) -> Seq<char> {
    match event {
        HookEvent::PreTool => "PreTool"@,
        HookEvent::PostTool => "PostTool"@,
    }
}

/// The name of an event, as its `Debug` form writes it.
pub fn hook_event_name(event: HookEvent) -> (r: String)
    ensures
        r@ == event_name(event),
{
    let mut out: Vec<char> = Vec::new();
    match event {
        HookEvent::PreTool => extend_str(&mut out, "PreTool"),
        HookEvent::PostTool => extend_str(&mut out, "PostTool"),
    }
    proof {
        assert(out@ =~= event_name(event));
    }
    string_of(&out)
}

/// A pair of texts as plain values.
pub open spec fn pair_views(v: Seq<(String, String)>) -> Seq<(Seq<char>, Seq<char>)> {
    v.map_values(|p: (String, String)| (p.0@, p.1@))
}

/// The environment a hook command runs with: the event, the tool's name, its
/// input as JSON and, where there is one, its output.
pub open spec fn hook_environment(
    event: HookEvent,
    tool_name: Seq<char>,
    tool_input: Seq<char>,
    tool_output: Option<Seq<char>>,
) -> Seq<(Seq<char>, Seq<char>)> {
    let base = seq![
        ("YUNZHI_HOOK_EVENT"@, event_name(event)),
        ("YUNZHI_TOOL_NAME"@, tool_name),
        ("YUNZHI_TOOL_INPUT"@, tool_input),
    ];
    match tool_output {
        Some(out) => base.push(("YUNZHI_TOOL_OUTPUT"@, out)),
        None => base,
    }
}

fn text_of(s: &str) -> (r: String)
    ensures
        r@ == s@,
{
    let v = chars_of(s);
    string_of(&v)
}

/// The environment a hook command runs with: the event, the tool's name, its
/// input as JSON and, where there is one, its output.
pub fn hook_env(event: HookEvent, tool_name: &str, tool_input: &str, tool_output: Option<&str>) -> (r: Vec<
    (String, String),
>)
    ensures
        pair_views(r@) == hook_environment(
            event,
            tool_name@,
            tool_input@,
            match tool_output {
                Some(o) => Some(o@),
                None => None,
            },
        ),
{
    let mut out: Vec<(String, String)> = Vec::new();
    out.push((text_of("YUNZHI_HOOK_EVENT"), hook_event_name(event)));
    out.push((text_of("YUNZHI_TOOL_NAME"), text_of(tool_name)));
    out.push((text_of("YUNZHI_TOOL_INPUT"), text_of(tool_input)));
    match tool_output {
        Some(o) => {
            out.push((text_of("YUNZHI_TOOL_OUTPUT"), text_of(o)));
        },
        None => {},
    }
    proof {
        assert(pair_views(out@) =~= hook_environment(
            event,
            tool_name@,
            tool_input@,
            match tool_output {
                Some(o) => Some(o@),
                None => None,
            },
        ));
    }
    out
}

// ---------------------------------------------------------------------------
// The report of hook runs
// ---------------------------------------------------------------------------

/// How many lines of a hook's output the report shows at most.
pub const HOOK_OUTPUT_LINES: usize = 40;

/// The first `HOOK_OUTPUT_LINES` lines of a list.
pub open spec fn first_lines(ls: Seq<Seq<char>>) -> Seq<Seq<char>> {
    if ls.len() <= HOOK_OUTPUT_LINES {
        ls
    } else {
        ls.take(HOOK_OUTPUT_LINES as int)
    }
}

/// Lines, each indented by four spaces and ended by a line break.
pub open spec fn indented(ls: Seq<Seq<char>>) -> Seq<char>
    decreases ls.len(),
{
    if ls.len() == 0 {
        seq![]
    } else {
        indented(ls.drop_last()) + "    "@ + ls.last() + "\n"@
    }
}

/// The part of a report that shows one output stream: nothing where the
/// stream is blank, else a header and its first lines, indented.
pub open spec fn stream_block(header: Seq<char>, s: Seq<char>) -> Seq<char> {
    if is_blank(s) {
        seq![]
    } else {
        header + indented(first_lines(lines(s)))
    }
}

/// The part of a report that shows one run.
pub open spec fn run_block(r: HookRunModel) -> Seq<char> {
    "- command: "@ + r.command + "\n  status: "@ + r.status + "\n  elapsed_ms: "@ + decimal(
        r.elapsed_ms as nat,
    ) + "\n"@ + stream_block("  stdout:\n"@, r.stdout) + stream_block("  stderr:\n"@, r.stderr)
}

/// The parts of a report for a list of runs, one after another.
pub open spec fn run_blocks(rs: Seq<HookRunModel>) -> Seq<char>
    decreases rs.len(),
{
    if rs.len() == 0 {
        seq![]
    } else {
        run_blocks(rs.drop_last()) + run_block(rs.last())
    }
}

/// The models of a list of runs.
pub open spec fn run_models(rs: Seq<HookRun>) -> Seq<HookRunModel> {
    rs.map_values(|r: HookRun| r@)
}

/// The report of hook runs: nothing where there were none, else `hooks:`
/// and a part per run, with the trailing whitespace removed.
pub open spec fn hook_report(rs: Seq<HookRunModel>) -> Seq<char> {
    if rs.len() == 0 {
        seq![]
    } else {
        trim_end("hooks:\n"@ + run_blocks(rs))
    }
}

/// Appends the report part of one output stream.
fn extend_stream(out: &mut Vec<char>, header: &str, s: &String)
    ensures
        final(out)@ == old(out)@ + stream_block(header@, s@),
{
    let ghost start = out@;
    let v = chars_of(s.as_str());
    let (a, b) = trim_range(&v, 0, v.len());
    proof {
        assert(v@.subrange(0, v@.len() as int) =~= s@);
    }
    if a == b {
        proof {
            assert(out@ =~= start + stream_block(header@, s@));
        }
        return;
    }
    extend_str(out, header);
    let ranges = line_ranges(&v);
    let ghost ls = lines(v@);
    let ghost shown = first_lines(ls);
    let count = if ranges.len() <= HOOK_OUTPUT_LINES { ranges.len() } else { HOOK_OUTPUT_LINES };
    proof {
        assert(shown.len() == count);
        assert forall|k: int| 0 <= k < count implies shown[k] == ls[k] by {}
        assert(shown.take(0) =~= seq![]);
    }
    let mut i: usize = 0;
    while i < count
        invariant
            i <= count <= ranges@.len() == ls.len(),
            shown.len() == count,
            forall|k: int| 0 <= k < count ==> shown[k] == ls[k],
            forall|k: int|
                0 <= k < ranges@.len() ==> {
                    &&& (#[trigger] ranges@[k]).0 <= ranges@[k].1 <= v@.len()
                    &&& v@.subrange(ranges@[k].0 as int, ranges@[k].1 as int) == ls[k]
                },
            out@ == start + header@ + indented(shown.take(i as int)),
        decreases count - i,
    {
        let (la, lb) = ranges[i];
        extend_str(out, "    ");
        extend_range(out, &v, la, lb);
        extend_str(out, "\n");
        proof {
            assert(shown.take(i + 1).drop_last() =~= shown.take(i as int));
            assert(shown.take(i + 1).last() == ls[i as int]);
            assert(out@ =~= start + header@ + indented(shown.take(i + 1)));
        }
        i = i + 1;
    }
    proof {
        assert(shown.take(count as int) =~= shown);
        assert(out@ =~= start + stream_block(header@, s@));
    }
}

/// Appends the report part of one run.
fn extend_run(out: &mut Vec<char>, run: &HookRun)
    ensures
        final(out)@ == old(out)@ + run_block(run@),
{
    let ghost start = out@;
    extend_str(out, "- command: ");
    let c = chars_of(run.command.as_str());
    extend_all(out, &c);
    extend_str(out, "\n  status: ");
    let s = chars_of(run.status.as_str());
    extend_all(out, &s);
    extend_str(out, "\n  elapsed_ms: ");
    push_decimal(out, run.elapsed_ms);
    extend_str(out, "\n");
    let ghost mid = out@;
    extend_stream(out, "  stdout:\n", &run.stdout);
    extend_stream(out, "  stderr:\n", &run.stderr);
    proof {
        assert(out@ =~= start + run_block(run@));
    }
}

/// The report of hook runs: nothing where there were none, else `hooks:`
/// and for each run its command, status, time and the first lines of what
/// it printed, with the trailing whitespace removed.
pub fn format_hook_runs(runs: &[HookRun]) -> (r: String)
    ensures
        r@ == hook_report(run_models(runs@)),
{
    let ghost rs = run_models(runs@);
    if runs.len() == 0 {
        let out: Vec<char> = Vec::new();
        proof {
            assert(out@ =~= hook_report(rs));
        }
        return string_of(&out);
    }
    let mut out: Vec<char> = Vec::new();
    extend_str(&mut out, "hooks:\n");
    let mut i: usize = 0;
    proof {
        assert(rs.take(0) =~= seq![]);
        assert(out@ =~= "hooks:\n"@ + run_blocks(rs.take(0)));
    }
    while i < runs.len()
        invariant
            i <= runs@.len() == rs.len(),
            rs == run_models(runs@),
            out@ == "hooks:\n"@ + run_blocks(rs.take(i as int)),
        decreases runs@.len() - i,
    {
        extend_run(&mut out, &runs[i]);
        proof {
            assert(rs.take(i + 1).drop_last() =~= rs.take(i as int));
            assert(rs.take(i + 1).last() == runs@[i as int]@);
            assert(out@ =~= "hooks:\n"@ + run_blocks(rs.take(i + 1)));
        }
        i = i + 1;
    }
    proof {
        assert(rs.take(runs@.len() as int) =~= rs);
    }
    let end = trim_end_to(&out, 0, out.len());
    proof {
        assert(out@.subrange(0, out@.len() as int) =~= out@);
    }
    string_from(&out, 0, end)
}

/// What a finished hook run comes to: the run where the command succeeded,
/// else the error message with the report of the run.
pub fn check_hook_run(run: HookRun, success: bool) -> (r: Result<HookRun, String>)
    ensures
        success ==> r == Ok::<HookRun, String>(run),
        !success ==> (r matches Err(msg) && msg@ == "Hook 执行失败:\n"@ + hook_report(seq![run@])),
{
    if success {
        return Ok(run);
    }
    let ghost model = run@;
    let runs = vec![run];
    let report = format_hook_runs(runs.as_slice());
    proof {
        assert(run_models(runs@) =~= seq![model]);
    }
    let mut out: Vec<char> = Vec::new();
    extend_str(&mut out, "Hook 执行失败:\n");
    let rep = chars_of(report.as_str());
    extend_all(&mut out, &rep);
    Err(string_of(&out))
}

/// The error message of a hook that ran out of time.
pub fn hook_timeout_message(hook: &HookRule) -> (r: String)
    ensures
        r@ == "Hook 超时: "@ + hook.command@,
{
    let mut out: Vec<char> = Vec::new();
    extend_str(&mut out, "Hook 超时: ");
    let c = chars_of(hook.command.as_str());
    extend_all(&mut out, &c);
    string_of(&out)
}


/// The hook configuration of a project: `.yunzhi/hooks.toml` in its
/// working directory.
pub fn hook_config_path(cwd: &str) -> (r: String)
    ensures
        joins(cwd@, ".yunzhi/hooks.toml"@, r@),
{
    path_join(cwd, ".yunzhi/hooks.toml")
}

/// A rule without tools, or with the tool `*`, applies to every tool.
pub proof fn lemma_wildcard_rules(tools: Seq<Seq<char>>, name: Seq<char>)
    requires
        tools.len() == 0 || tools.contains("*"@),
    ensures
        tool_matches(tools, name),
{
    if tools.len() > 0 {
        let i = choose|i: int| 0 <= i < tools.len() && tools[i] == "*"@;
        assert(tools[i] == "*"@);
    }
}

/// The report is empty exactly when there were no runs: where there were,
/// it begins with `hooks:`.
pub proof fn lemma_report_empty_iff_no_runs(rs: Seq<HookRunModel>)
    ensures
        rs.len() == 0 ==> hook_report(rs).len() == 0,
        rs.len() > 0 ==> hook_report(rs).len() >= 6 && hook_report(rs).take(6) == "hooks:"@,
{
    if rs.len() > 0 {
        reveal_strlit("hooks:\n");
        reveal_strlit("hooks:");
        let whole = "hooks:\n"@ + run_blocks(rs);
        assert(whole[5] == ':');
        lemma_trim_end_keeps(whole, 6);
        assert(trim_end(whole).take(6) =~= "hooks:"@);
    }
}


/// A rule's tool list takes in a tool exactly when the list is empty, or it
/// lists `*`, or it lists the tool, wherever in the list.
pub proof fn lemma_tool_matches_membership(tools: Seq<Seq<char>>, name: Seq<char>)
    ensures
        tool_matches(tools, name) <==> (tools.len() == 0 || tools.contains("*"@) || tools.contains(name)),
        forall|i: int| 0 <= i < tools.len() && #[trigger] tools[i] == name ==> tool_matches(tools, name),
{
    if tools.contains("*"@) {
        let i = choose|i: int| 0 <= i < tools.len() && tools[i] == "*"@;
        assert(tools[i] == "*"@);
    }
    if tools.contains(name) {
        let i = choose|i: int| 0 <= i < tools.len() && tools[i] == name;
        assert(tools[i] == name);
    }
    if tool_matches(tools, name) && tools.len() > 0 {
        let i = choose|i: int| 0 <= i < tools.len() && (#[trigger] tools[i] == "*"@ || tools[i] == name);
        assert(tools.contains(tools[i]));
    }
}

/// A run without output: the part of a report for its command, status and
/// time alone.
pub open spec fn without_output(r: HookRunModel) -> HookRunModel {
    HookRunModel { command: r.command, status: r.status, stdout: seq![], stderr: seq![], elapsed_ms: r.elapsed_ms }
}

/// Each output stream is shown on its own: the part of a run is that of the
/// run without output, then the stdout part, then the stderr part, each
/// depending on its own stream alone. A blank stream shows nothing, and a
/// non-blank one shows its header and its first lines, indented.
pub proof fn lemma_run_block_streams(r: HookRunModel)
    ensures
        run_block(r) == run_block(without_output(r)) + stream_block("  stdout:\n"@, r.stdout) + stream_block(
            "  stderr:\n"@,
            r.stderr,
        ),
        is_blank(r.stderr) <==> stream_block("  stderr:\n"@, r.stderr).len() == 0,
        !is_blank(r.stderr) ==> stream_block("  stderr:\n"@, r.stderr) == "  stderr:\n"@ + indented(
            first_lines(lines(r.stderr)),
        ),
        is_blank(r.stdout) <==> stream_block("  stdout:\n"@, r.stdout).len() == 0,
{
    reveal_strlit("  stderr:\n");
    reveal_strlit("  stdout:\n");
    let e: Seq<char> = seq![];
    assert(trim(e).len() == 0) by {
        assert(crate::text::trim_start(e) == e);
        assert(trim_end(e) == e);
    }
    assert(stream_block("  stdout:\n"@, e) == e);
    assert(stream_block("  stderr:\n"@, e) == e);
    let head = "- command: "@ + r.command + "\n  status: "@ + r.status + "\n  elapsed_ms: "@ + decimal(
        r.elapsed_ms as nat,
    ) + "\n"@;
    assert(run_block(without_output(r)) =~= head);
}

/// The parts of a report for runs one after another are the parts for the
/// first runs, then those for the others.
pub proof fn lemma_run_blocks_append(a: Seq<HookRunModel>, b: Seq<HookRunModel>)
    ensures
        run_blocks(a + b) == run_blocks(a) + run_blocks(b),
    decreases b.len(),
{
    if b.len() == 0 {
        assert(a + b =~= a);
        assert(run_blocks(a) + run_blocks(b) =~= run_blocks(a));
    } else {
        lemma_run_blocks_append(a, b.drop_last());
        assert((a + b).drop_last() =~= a + b.drop_last());
        assert((a + b).last() == b.last());
        assert(run_blocks(a) + run_blocks(b.drop_last()) + run_block(b.last()) =~= run_blocks(a) + (run_blocks(
            b.drop_last(),
        ) + run_block(b.last())));
    }
}

/// Lines are indented one by one: each shows as four spaces, the line and a
/// line break, in order.
pub proof fn lemma_indented_append(a: Seq<Seq<char>>, b: Seq<Seq<char>>)
    ensures
        indented(a + b) == indented(a) + indented(b),
        indented(seq![]) == Seq::<char>::empty(),
    decreases b.len(),
{
    if b.len() == 0 {
        assert(a + b =~= a);
        assert(indented(a) + indented(b) =~= indented(a));
    } else {
        lemma_indented_append(a, b.drop_last());
        assert((a + b).drop_last() =~= a + b.drop_last());
        assert((a + b).last() == b.last());
        assert(indented(a) + indented(b.drop_last()) + "    "@ + b.last() + "\n"@ =~= indented(a) + (indented(
            b.drop_last(),
        ) + "    "@ + b.last() + "\n"@));
    }
}


/// A time limit is held between 1 and 600 seconds: one in that range is
/// kept, one below is raised to 1, one above is lowered to 600; holding
/// twice changes nothing, and a longer limit is never held shorter.
pub proof fn lemma_timeout_held(t: u64, u: u64)
    ensures
        1 <= effective_timeout(t) <= 600,
        1 <= t <= 600 ==> effective_timeout(t) == t,
        t < 1 ==> effective_timeout(t) == 1,
        t > 600 ==> effective_timeout(t) == 600,
        effective_timeout(effective_timeout(t)) == effective_timeout(t),
        t <= u ==> effective_timeout(t) <= effective_timeout(u),
{
}

/// The report shows the first 40 lines of a stream, or all of them where
/// there are fewer, in order.
pub proof fn lemma_first_lines_prefix(ls: Seq<Seq<char>>)
    ensures
        first_lines(ls).len() == (if ls.len() <= 40 { ls.len() } else { 40 }),
        forall|i: int| 0 <= i < first_lines(ls).len() ==> #[trigger] first_lines(ls)[i] == ls[i],
{
}

/// One indented line is four spaces, the line and a line break.
pub proof fn lemma_indented_single(l: Seq<char>)
    ensures
        indented(seq![l]) == "    "@ + l + "\n"@,
{
    assert(seq![l].drop_last() =~= Seq::<Seq<char>>::empty());
    assert(indented(Seq::<Seq<char>>::empty()) == Seq::<char>::empty());
    assert(Seq::<char>::empty() + "    "@ + l + "\n"@ =~= "    "@ + l + "\n"@);
}

} // verus!
