//! Pure pieces of the agent-log event source: recognizing session file
//! names and mapping raw tool invocations to events.

use vstd::prelude::*;

use crate::symbols::Span;
use crate::text::{append_chars, append_str, chars_of, chars_to_string};
use crate::tracking::ReadDepth;

use super::AgentToolCall;

verus! {

/// Whether `c` is an ASCII hexadecimal digit.
pub open spec fn spec_is_hex_digit(c: char) -> bool {
    let u = c as u32;
    (0x30 <= u && u <= 0x39) || (0x61 <= u && u <= 0x66) || (0x41 <= u && u <= 0x46)
}

/// Whether `s` has the shape of a UUID: five groups of hex digits of lengths
/// 8-4-4-4-12, separated by dashes.
pub open spec fn spec_is_uuid(s: Seq<char>) -> bool {
    &&& s.len() == 36
    &&& s[8] == '-'
    &&& s[13] == '-'
    &&& s[18] == '-'
    &&& s[23] == '-'
    &&& forall|i: int|
        0 <= i < 36 && i != 8 && i != 13 && i != 18 && i != 23 ==> spec_is_hex_digit(
            #[trigger] s[i],
        )
}

fn is_hex_digit(c: char) -> (r: bool)
    ensures
        r == spec_is_hex_digit(c),
{
    let u = c as u32;
    (0x30 <= u && u <= 0x39) || (0x61 <= u && u <= 0x66) || (0x41 <= u && u <= 0x46)
}

/// Check whether a string looks like a UUID (8-4-4-4-12 hex chars).
pub fn is_uuid(s: &str) -> (r: bool)
    ensures
        r == spec_is_uuid(s@),
{
    let v = chars_of(s);
    if v.len() != 36 {
        return false;
    }
    let mut i: usize = 0;
    while i < 36
        invariant
            v@ == s@,
            v@.len() == 36,
            0 <= i <= 36,
            s@[8] == '-' || i <= 8,
            s@[13] == '-' || i <= 13,
            s@[18] == '-' || i <= 18,
            s@[23] == '-' || i <= 23,
            forall|j: int|
                0 <= j < i && j != 8 && j != 13 && j != 18 && j != 23 ==> spec_is_hex_digit(
                    #[trigger] s@[j],
                ),
        decreases 36 - i,
    {
        let c = v[i];
        if i == 8 || i == 13 || i == 18 || i == 23 {
            if c != '-' {
                return false;
            }
        } else {
            if !is_hex_digit(c) {
                return false;
            }
        }
        i = i + 1;
    }
    true
}


/// The path segments of `s`: maximal runs of non-`/` characters, empty runs
/// dropped. `cur` accumulates the segment being read.
pub open spec fn spec_segments_acc(s: Seq<char>, cur: Seq<char>) -> Seq<Seq<char>>
    decreases s.len(),
{
    if s.len() == 0 {
        if cur.len() > 0 {
            seq![cur]
        } else {
            Seq::empty()
        }
    } else if s[0] == '/' {
        (if cur.len() > 0 {
            seq![cur]
        } else {
            Seq::empty()
        }) + spec_segments_acc(s.skip(1), Seq::empty())
    } else {
        spec_segments_acc(s.skip(1), cur.push(s[0]))
    }
}

/// The non-empty `/`-separated segments of a path.
pub open spec fn spec_path_segments(s: Seq<char>) -> Seq<Seq<char>> {
    spec_segments_acc(s, Seq::empty())
}

/// A path shortened for display: its last two segments, joined by `/`.
pub open spec fn spec_short_path(s: Seq<char>) -> Seq<char> {
    let segs = spec_path_segments(s);
    if segs.len() >= 2 {
        segs[segs.len() - 2] + seq!['/'] + segs[segs.len() - 1]
    } else if segs.len() == 1 {
        segs[0]
    } else {
        Seq::empty()
    }
}

/// The non-empty segments of `path`, split on `/`.
#[verifier::loop_isolation(false)]
fn path_segments(path: &str) -> (r: Vec<Vec<char>>)
    ensures
        r@.map_values(|v: Vec<char>| v@) == spec_path_segments(path@),
{
    let chars = chars_of(path);
    let n = chars.len();
    let mut segs: Vec<Vec<char>> = Vec::new();
    let mut cur: Vec<char> = Vec::new();
    let mut i: usize = 0;
    proof {
        assert(chars@.skip(0) =~= chars@);
        assert(segs@.map_values(|v: Vec<char>| v@) =~= Seq::<Seq<char>>::empty());
    }
    while i < n
        invariant
            0 <= i <= n,
            spec_path_segments(path@) == segs@.map_values(|v: Vec<char>| v@) + spec_segments_acc(
                chars@.skip(i as int),
                cur@,
            ),
        decreases n - i,
    {
        let c = chars[i];
        proof {
            assert(chars@.skip(i as int)[0] == chars@[i as int]);
            assert(chars@.skip(i as int).skip(1) =~= chars@.skip(i + 1));
        }
        if c == '/' {
            if cur.len() > 0 {
                let ghost segs_old = segs@;
                let ghost cur_old = cur@;
                segs.push(cur);
                cur = Vec::new();
                proof {
                    assert(cur@ =~= Seq::<char>::empty());
                    assert(segs@.map_values(|v: Vec<char>| v@) =~= segs_old.map_values(
                        |v: Vec<char>| v@,
                    ).push(cur_old));
                    assert(segs_old.map_values(|v: Vec<char>| v@) + (seq![cur_old]
                        + spec_segments_acc(chars@.skip(i + 1), Seq::empty()))
                        =~= segs_old.map_values(|v: Vec<char>| v@).push(cur_old)
                        + spec_segments_acc(chars@.skip(i + 1), Seq::empty()));
                }
            } else {
                proof {
                    assert(cur@ =~= Seq::<char>::empty());
                    assert(Seq::<Seq<char>>::empty() + spec_segments_acc(
                        chars@.skip(i + 1),
                        Seq::empty(),
                    ) =~= spec_segments_acc(chars@.skip(i + 1), Seq::empty()));
                }
            }
        } else {
            cur.push(c);
        }
        i = i + 1;
    }
    proof {
        assert(chars@.skip(n as int) =~= Seq::<char>::empty());
    }
    if cur.len() > 0 {
        let ghost segs_old = segs@;
        let ghost cur_old = cur@;
        segs.push(cur);
        proof {
            assert(segs@.map_values(|v: Vec<char>| v@) =~= segs_old.map_values(
                |v: Vec<char>| v@,
            ).push(cur_old));
            assert(segs_old.map_values(|v: Vec<char>| v@) + seq![cur_old] =~= segs_old.map_values(
                |v: Vec<char>| v@,
            ).push(cur_old));
        }
    } else {
        proof {
            assert(segs@.map_values(|v: Vec<char>| v@) + Seq::<Seq<char>>::empty()
                =~= segs@.map_values(|v: Vec<char>| v@));
        }
    }
    segs
}

/// Shorten a file path for display: keep its last two segments.
pub fn short_path(path: &str) -> (r: String)
    ensures
        r@ == spec_short_path(path@),
{
    let segs = path_segments(path);
    let n = segs.len();
    proof {
        assert(segs@.map_values(|v: Vec<char>| v@).len() == segs@.len());
    }
    if n >= 2 {
        let mut out: Vec<char> = Vec::new();
        append_chars(&mut out, &segs[n - 2]);
        out.push('/');
        append_chars(&mut out, &segs[n - 1]);
        proof {
            let sv = segs@.map_values(|v: Vec<char>| v@);
            assert(sv[n - 2] == segs@[n - 2]@);
            assert(sv[n - 1] == segs@[n - 1]@);
            assert(out@ =~= sv[n - 2] + seq!['/'] + sv[n - 1]);
        }
        chars_to_string(&out)
    } else if n == 1 {
        let mut out: Vec<char> = Vec::new();
        append_chars(&mut out, &segs[0]);
        proof {
            let sv = segs@.map_values(|v: Vec<char>| v@);
            assert(sv[0] == segs@[0]@);
            assert(Seq::<char>::empty() + segs@[0]@ =~= segs@[0]@);
        }
        chars_to_string(&out)
    } else {
        String::new()
    }
}


/// The plain values an event source pulls out of a tool invocation's input:
/// each field is the like-named input key, when present.
#[derive(Debug, Clone)]
pub struct ToolCallInput {
    pub file_path: Option<String>,
    pub relative_path: Option<String>,
    pub notebook_path: Option<String>,
    pub path: Option<String>,
    pub pattern: Option<String>,
    pub substring_pattern: Option<String>,
    pub file_mask: Option<String>,
    pub name_path_pattern: Option<String>,
    pub name_path: Option<String>,
    pub include_body: Option<bool>,
    pub offset: Option<u64>,
    pub limit: Option<u64>,
}

pub open spec fn spec_is_read_tool(n: Seq<char>) -> bool {
    n == "mcp__acp__Read"@ || n == "Read"@ || n == "mcp__plugin_serena_serena__read_file"@
}

pub open spec fn spec_is_edit_tool(n: Seq<char>) -> bool {
    n == "mcp__acp__Edit"@ || n == "Edit"@ || n == "mcp__plugin_serena_serena__replace_content"@
}

pub open spec fn spec_is_write_tool(n: Seq<char>) -> bool {
    n == "mcp__acp__Write"@ || n == "Write"@ || n == "mcp__plugin_serena_serena__create_text_file"@
}

pub open spec fn spec_is_glob_tool(n: Seq<char>) -> bool {
    n == "Glob"@ || n == "mcp__serena__find_file"@ || n == "mcp__serena__list_dir"@ || n
        == "mcp__plugin_serena_serena__find_file"@ || n == "mcp__plugin_serena_serena__list_dir"@
}

pub open spec fn spec_is_grep_tool(n: Seq<char>) -> bool {
    n == "Grep"@ || n == "mcp__serena__search_for_pattern"@ || n
        == "mcp__plugin_serena_serena__search_for_pattern"@
}

pub open spec fn spec_is_overview_tool(n: Seq<char>) -> bool {
    n == "mcp__serena__get_symbols_overview"@ || n
        == "mcp__plugin_serena_serena__get_symbols_overview"@
}

pub open spec fn spec_is_find_symbol_tool(n: Seq<char>) -> bool {
    n == "mcp__serena__find_symbol"@ || n == "mcp__plugin_serena_serena__find_symbol"@
}

pub open spec fn spec_is_find_refs_tool(n: Seq<char>) -> bool {
    n == "mcp__serena__find_referencing_symbols"@ || n
        == "mcp__plugin_serena_serena__find_referencing_symbols"@
}

pub open spec fn spec_is_replace_symbol_tool(n: Seq<char>) -> bool {
    n == "mcp__serena__replace_symbol_body"@ || n
        == "mcp__plugin_serena_serena__replace_symbol_body"@
}

pub open spec fn spec_is_insert_after_tool(n: Seq<char>) -> bool {
    n == "mcp__serena__insert_after_symbol"@ || n
        == "mcp__plugin_serena_serena__insert_after_symbol"@
}

pub open spec fn spec_is_insert_before_tool(n: Seq<char>) -> bool {
    n == "mcp__serena__insert_before_symbol"@ || n
        == "mcp__plugin_serena_serena__insert_before_symbol"@
}

pub open spec fn spec_is_rename_tool(n: Seq<char>) -> bool {
    n == "mcp__serena__rename_symbol"@ || n == "mcp__plugin_serena_serena__rename_symbol"@
}

pub open spec fn spec_is_notebook_tool(n: Seq<char>) -> bool {
    n == "NotebookEdit"@
}

/// Whether the tool is one the event source tracks at all.
pub open spec fn spec_is_tracked_tool(n: Seq<char>) -> bool {
    ||| spec_is_read_tool(n)
    ||| spec_is_edit_tool(n)
    ||| spec_is_write_tool(n)
    ||| spec_is_glob_tool(n)
    ||| spec_is_grep_tool(n)
    ||| spec_is_overview_tool(n)
    ||| spec_is_find_symbol_tool(n)
    ||| spec_is_find_refs_tool(n)
    ||| spec_is_replace_symbol_tool(n)
    ||| spec_is_insert_after_tool(n)
    ||| spec_is_insert_before_tool(n)
    ||| spec_is_rename_tool(n)
    ||| spec_is_notebook_tool(n)
}

/// First of two optional values, viewed.
pub open spec fn spec_opt_or(a: Option<String>, b: Option<String>) -> Option<Seq<char>> {
    if a is Some {
        Some(a->0@)
    } else if b is Some {
        Some(b->0@)
    } else {
        None
    }
}

/// An optional value, or a literal fallback, viewed.
pub open spec fn spec_opt_or_lit(a: Option<Seq<char>>, fallback: Seq<char>) -> Seq<char> {
    if a is Some {
        a->0
    } else {
        fallback
    }
}

/// Whether mapping yields an event: tracked tools do, except that file
/// read/edit/write tools and notebook edits need their path argument.
pub open spec fn spec_map_ok(n: Seq<char>, inp: ToolCallInput) -> bool {
    if spec_is_read_tool(n) || spec_is_edit_tool(n) || spec_is_write_tool(n) {
        inp.file_path is Some || inp.relative_path is Some
    } else if spec_is_glob_tool(n) || spec_is_grep_tool(n) || spec_is_overview_tool(n)
        || spec_is_find_symbol_tool(n) || spec_is_find_refs_tool(n) || spec_is_replace_symbol_tool(
        n,
    ) || spec_is_insert_after_tool(n) || spec_is_insert_before_tool(n) || spec_is_rename_tool(n) {
        true
    } else if spec_is_notebook_tool(n) {
        inp.notebook_path is Some
    } else {
        false
    }
}

/// The read depth a tracked tool call yields.
pub open spec fn spec_map_depth(n: Seq<char>, inp: ToolCallInput) -> ReadDepth {
    if spec_is_read_tool(n) || spec_is_edit_tool(n) || spec_is_write_tool(n) {
        ReadDepth::FullBody
    } else if spec_is_glob_tool(n) {
        ReadDepth::NameOnly
    } else if spec_is_grep_tool(n) || spec_is_overview_tool(n) {
        ReadDepth::Overview
    } else if spec_is_find_symbol_tool(n) {
        if inp.include_body == Some(true) {
            ReadDepth::FullBody
        } else {
            ReadDepth::Signature
        }
    } else if spec_is_find_refs_tool(n) {
        ReadDepth::Overview
    } else {
        ReadDepth::FullBody
    }
}

/// The file path the event carries, if any.
pub open spec fn spec_map_file_path(n: Seq<char>, inp: ToolCallInput) -> Option<Seq<char>> {
    if spec_is_read_tool(n) || spec_is_edit_tool(n) || spec_is_write_tool(n) {
        spec_opt_or(inp.file_path, inp.relative_path)
    } else if spec_is_glob_tool(n) || spec_is_grep_tool(n) {
        spec_opt_or(inp.path, inp.relative_path)
    } else if spec_is_overview_tool(n) || spec_is_find_symbol_tool(n) || spec_is_find_refs_tool(n)
        || spec_is_replace_symbol_tool(n) || spec_is_insert_after_tool(n)
        || spec_is_insert_before_tool(n) || spec_is_rename_tool(n) {
        spec_opt_or(inp.relative_path, None)
    } else {
        Some(inp.notebook_path->0@)
    }
}

/// The target symbol name the event carries, if any.
pub open spec fn spec_map_target(n: Seq<char>, inp: ToolCallInput) -> Option<Seq<char>> {
    if spec_is_read_tool(n) || spec_is_edit_tool(n) || spec_is_write_tool(n) || spec_is_glob_tool(
        n,
    ) || spec_is_grep_tool(n) || spec_is_overview_tool(n) {
        None
    } else if spec_is_find_symbol_tool(n) {
        spec_opt_or(inp.name_path_pattern, None)
    } else if spec_is_find_refs_tool(n) || spec_is_replace_symbol_tool(n)
        || spec_is_insert_after_tool(n) || spec_is_insert_before_tool(n) || spec_is_rename_tool(
        n,
    ) {
        spec_opt_or(inp.name_path, None)
    } else {
        None
    }
}

/// The event's free-text description.
pub open spec fn spec_map_description(n: Seq<char>, inp: ToolCallInput) -> Seq<char> {
    if spec_is_read_tool(n) {
        "Read "@ + spec_short_path(spec_opt_or(inp.file_path, inp.relative_path)->0)
    } else if spec_is_edit_tool(n) {
        "Edit "@ + spec_short_path(spec_opt_or(inp.file_path, inp.relative_path)->0)
    } else if spec_is_write_tool(n) {
        "Write "@ + spec_short_path(spec_opt_or(inp.file_path, inp.relative_path)->0)
    } else if spec_is_glob_tool(n) {
        "Glob "@ + spec_opt_or_lit(spec_opt_or(inp.pattern, inp.file_mask), "*"@)
    } else if spec_is_grep_tool(n) {
        "Search \""@ + spec_opt_or_lit(spec_opt_or(inp.pattern, inp.substring_pattern), "?"@)
            + "\""@
    } else if spec_is_overview_tool(n) {
        "Overview "@ + spec_opt_or_lit(spec_opt_or(inp.relative_path, None), "?"@)
    } else if spec_is_find_symbol_tool(n) {
        "Symbol "@ + spec_opt_or_lit(spec_opt_or(inp.name_path_pattern, None), "?"@)
    } else if spec_is_find_refs_tool(n) {
        "FindRefs "@ + spec_opt_or_lit(spec_opt_or(inp.name_path, None), "?"@)
    } else if spec_is_replace_symbol_tool(n) {
        "ReplaceSymbol "@ + spec_opt_or_lit(spec_opt_or(inp.name_path, None), "?"@)
    } else if spec_is_insert_after_tool(n) {
        "InsertAfter "@ + spec_opt_or_lit(spec_opt_or(inp.name_path, None), "?"@)
    } else if spec_is_insert_before_tool(n) {
        "InsertBefore "@ + spec_opt_or_lit(spec_opt_or(inp.name_path, None), "?"@)
    } else if spec_is_rename_tool(n) {
        "Rename "@ + spec_opt_or_lit(spec_opt_or(inp.name_path, None), "?"@)
    } else {
        "NotebookEdit "@ + spec_short_path(inp.notebook_path->0@)
    }
}

fn str_in2(n: &str, a: &str, b: &str) -> (r: bool)
    ensures
        r == (n@ == a@ || n@ == b@),
{
    crate::text::str_eq(n, a) || crate::text::str_eq(n, b)
}

fn str_in3(n: &str, a: &str, b: &str, c: &str) -> (r: bool)
    ensures
        r == (n@ == a@ || n@ == b@ || n@ == c@),
{
    crate::text::str_eq(n, a) || crate::text::str_eq(n, b) || crate::text::str_eq(n, c)
}

fn opt_clone_or(a: &Option<String>, b: &Option<String>) -> (r: Option<String>)
    ensures
        (r is Some) == (spec_opt_or(*a, *b) is Some),
        r is Some ==> r->0@ == spec_opt_or(*a, *b)->0,
{
    match a {
        Some(s) => Some(s.clone()),
        None => match b {
            Some(s) => Some(s.clone()),
            None => None,
        },
    }
}

fn desc_search(opt: &Option<String>, opt2: &Option<String>) -> (r: String)
    ensures
        r@ == "Search \""@ + spec_opt_or_lit(spec_opt_or(*opt, *opt2), "?"@) + "\""@,
{
    let mut out: Vec<char> = Vec::new();
    append_str(&mut out, "Search \"");
    match opt {
        Some(s) => append_str(&mut out, s.as_str()),
        None => match opt2 {
            Some(s) => append_str(&mut out, s.as_str()),
            None => append_str(&mut out, "?"),
        },
    }
    append_str(&mut out, "\"");
    proof {
        assert(Seq::<char>::empty() + "Search \""@ =~= "Search \""@);
    }
    chars_to_string(&out)
}

fn desc_with(prefix: &str, opt: &Option<String>, opt2: &Option<String>, fallback: &str) -> (r:
    String)
    ensures
        r@ == prefix@ + spec_opt_or_lit(spec_opt_or(*opt, *opt2), fallback@),
{
    let mut out: Vec<char> = Vec::new();
    append_str(&mut out, prefix);
    match opt {
        Some(s) => append_str(&mut out, s.as_str()),
        None => match opt2 {
            Some(s) => append_str(&mut out, s.as_str()),
            None => append_str(&mut out, fallback),
        },
    }
    proof {
        assert(Seq::<char>::empty() + prefix@ =~= prefix@);
    }
    chars_to_string(&out)
}

fn desc_short(prefix: &str, path: &str) -> (r: String)
    ensures
        r@ == prefix@ + spec_short_path(path@),
{
    let mut out: Vec<char> = Vec::new();
    append_str(&mut out, prefix);
    let short = short_path(path);
    append_str(&mut out, short.as_str());
    proof {
        assert(Seq::<char>::empty() + prefix@ =~= prefix@);
    }
    chars_to_string(&out)
}

/// Map a raw tool invocation to an agent tool-call event: a tracked tool
/// yields an event at the depth that kind of tool implies, carrying the path
/// and targeting it named; an untracked tool, or a file tool without its
/// path, yields nothing.
pub fn map_tool_call(
    tool_name: &str,
    input: &ToolCallInput,
    agent_id: &str,
    timestamp_str: &str,
) -> (r: Option<AgentToolCall>)
    ensures
        (r is Some) == spec_map_ok(tool_name@, *input),
        r is Some ==> ({
            let e = r->0;
            &&& e.agent_id@ == agent_id@
            &&& e.tool_name@ == tool_name@
            &&& e.timestamp_str@ == timestamp_str@
            &&& e.read_depth == spec_map_depth(tool_name@, *input)
            &&& (e.file_path is Some) == (spec_map_file_path(tool_name@, *input) is Some)
            &&& (e.file_path is Some ==> e.file_path->0@ == spec_map_file_path(
                tool_name@,
                *input,
            )->0)
            &&& (e.target_symbol is Some) == (spec_map_target(tool_name@, *input) is Some)
            &&& (e.target_symbol is Some ==> e.target_symbol->0@ == spec_map_target(
                tool_name@,
                *input,
            )->0)
            &&& e.description@ == spec_map_description(tool_name@, *input)
            &&& (e.target_lines is Some) == (spec_is_read_tool(tool_name@) && input.offset is Some
                && input.limit is Some)
            &&& (e.target_lines is Some ==> e.target_lines->0.start == input.offset->0 as usize
                && e.target_lines->0.end as nat == crate::symbols::spec_cap_usize(
                (input.offset->0 as usize) as nat + (input.limit->0 as usize) as nat,
            ))
        }),
{
    let is_read = str_in3(tool_name, "mcp__acp__Read", "Read", "mcp__plugin_serena_serena__read_file");
    let is_edit = str_in3(tool_name, "mcp__acp__Edit", "Edit", "mcp__plugin_serena_serena__replace_content");
    let is_write = str_in3(tool_name, "mcp__acp__Write", "Write", "mcp__plugin_serena_serena__create_text_file");
    let is_glob = str_in3(tool_name, "Glob", "mcp__serena__find_file", "mcp__serena__list_dir")
        || str_in2(tool_name, "mcp__plugin_serena_serena__find_file", "mcp__plugin_serena_serena__list_dir");
    let is_grep = str_in3(tool_name, "Grep", "mcp__serena__search_for_pattern", "mcp__plugin_serena_serena__search_for_pattern");
    let is_overview = str_in2(tool_name, "mcp__serena__get_symbols_overview", "mcp__plugin_serena_serena__get_symbols_overview");
    let is_find_symbol = str_in2(tool_name, "mcp__serena__find_symbol", "mcp__plugin_serena_serena__find_symbol");
    let is_find_refs = str_in2(tool_name, "mcp__serena__find_referencing_symbols", "mcp__plugin_serena_serena__find_referencing_symbols");
    let is_replace = str_in2(tool_name, "mcp__serena__replace_symbol_body", "mcp__plugin_serena_serena__replace_symbol_body");
    let is_insert_after = str_in2(tool_name, "mcp__serena__insert_after_symbol", "mcp__plugin_serena_serena__insert_after_symbol");
    let is_insert_before = str_in2(tool_name, "mcp__serena__insert_before_symbol", "mcp__plugin_serena_serena__insert_before_symbol");
    let is_rename = str_in2(tool_name, "mcp__serena__rename_symbol", "mcp__plugin_serena_serena__rename_symbol");
    let is_notebook = crate::text::str_eq(tool_name, "NotebookEdit");
    if is_read || is_edit || is_write {
        let path = match opt_clone_or(&input.file_path, &input.relative_path) {
            Some(p) => p,
            None => {
                return None;
            },
        };
        let target_lines: Option<crate::symbols::Span> = if is_read {
            match (&input.offset, &input.limit) {
                (Some(o), Some(l)) => {
                    let start = #[verifier::truncate] (*o as usize);
                    let end = crate::symbols::sat_add(start, #[verifier::truncate] (*l as usize));
                    Some(Span { start, end })
                },
                _ => None,
            }
        } else {
            None
        };
        let description = if is_read {
            desc_short("Read ", path.as_str())
        } else if is_edit {
            desc_short("Edit ", path.as_str())
        } else {
            desc_short("Write ", path.as_str())
        };
        return Some(
            AgentToolCall {
                agent_id: agent_id.to_owned(),
                tool_name: tool_name.to_owned(),
                file_path: Some(path),
                read_depth: ReadDepth::FullBody,
                description,
                timestamp_str: timestamp_str.to_owned(),
                target_symbol: None,
                target_lines,
            },
        );
    }
    if is_glob {
        return Some(
            AgentToolCall {
                agent_id: agent_id.to_owned(),
                tool_name: tool_name.to_owned(),
                file_path: opt_clone_or(&input.path, &input.relative_path),
                read_depth: ReadDepth::NameOnly,
                description: desc_with("Glob ", &input.pattern, &input.file_mask, "*"),
                timestamp_str: timestamp_str.to_owned(),
                target_symbol: None,
                target_lines: None,
            },
        );
    }
    if is_grep {
        return Some(
            AgentToolCall {
                agent_id: agent_id.to_owned(),
                tool_name: tool_name.to_owned(),
                file_path: opt_clone_or(&input.path, &input.relative_path),
                read_depth: ReadDepth::Overview,
                description: desc_search(&input.pattern, &input.substring_pattern),
                timestamp_str: timestamp_str.to_owned(),
                target_symbol: None,
                target_lines: None,
            },
        );
    }
    if is_overview {
        return Some(
            AgentToolCall {
                agent_id: agent_id.to_owned(),
                tool_name: tool_name.to_owned(),
                file_path: opt_clone_or(&input.relative_path, &None),
                read_depth: ReadDepth::Overview,
                description: desc_with("Overview ", &input.relative_path, &None, "?"),
                timestamp_str: timestamp_str.to_owned(),
                target_symbol: None,
                target_lines: None,
            },
        );
    }
    if is_find_symbol {
        let include_body = match &input.include_body {
            Some(b) => *b,
            None => false,
        };
        let depth = if include_body {
            ReadDepth::FullBody
        } else {
            ReadDepth::Signature
        };
        return Some(
            AgentToolCall {
                agent_id: agent_id.to_owned(),
                tool_name: tool_name.to_owned(),
                file_path: opt_clone_or(&input.relative_path, &None),
                read_depth: depth,
                description: desc_with("Symbol ", &input.name_path_pattern, &None, "?"),
                timestamp_str: timestamp_str.to_owned(),
                target_symbol: opt_clone_or(&input.name_path_pattern, &None),
                target_lines: None,
            },
        );
    }
    if is_find_refs || is_replace || is_insert_after || is_insert_before || is_rename {
        let depth = if is_find_refs {
            ReadDepth::Overview
        } else {
            ReadDepth::FullBody
        };
        let description = if is_find_refs {
            desc_with("FindRefs ", &input.name_path, &None, "?")
        } else if is_replace {
            desc_with("ReplaceSymbol ", &input.name_path, &None, "?")
        } else if is_insert_after {
            desc_with("InsertAfter ", &input.name_path, &None, "?")
        } else if is_insert_before {
            desc_with("InsertBefore ", &input.name_path, &None, "?")
        } else {
            desc_with("Rename ", &input.name_path, &None, "?")
        };
        return Some(
            AgentToolCall {
                agent_id: agent_id.to_owned(),
                tool_name: tool_name.to_owned(),
                file_path: opt_clone_or(&input.relative_path, &None),
                read_depth: depth,
                description,
                timestamp_str: timestamp_str.to_owned(),
                target_symbol: opt_clone_or(&input.name_path, &None),
                target_lines: None,
            },
        );
    }
    if is_notebook {
        let path = match &input.notebook_path {
            Some(p) => p.clone(),
            None => {
                return None;
            },
        };
        let description = desc_short("NotebookEdit ", path.as_str());
        return Some(
            AgentToolCall {
                agent_id: agent_id.to_owned(),
                tool_name: tool_name.to_owned(),
                file_path: Some(path),
                read_depth: ReadDepth::FullBody,
                description,
                timestamp_str: timestamp_str.to_owned(),
                target_symbol: None,
                target_lines: None,
            },
        );
    }
    None
}

} // verus!
