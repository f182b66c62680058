//! Text helpers of the terminal client: host endpoints, slash commands, the command list and
//! the plot artifacts that a reply can announce.

use vstd::prelude::*;

use crate::text::{decimal, push_decimal, str_eq, to_chars, trim, trimmed_string_of, string_of};

verus! {

/// A command the host or the client understands.
#[derive(Debug, Clone)]
pub struct CommandInfo {
    pub name: String,
    pub description: String,
    pub usage: String,
}

/// `true`/`false` as an environment variable's value.
pub fn bool_env(value: bool) -> (r: &'static str)
    ensures
        r@ == (if value {
            "true"@
        } else {
            "false"@
        }),
{
    if value {
        "true"
    } else {
        "false"
    }
}

/// `s` without its trailing `/` characters.
pub open spec fn trim_end_slashes(s: Seq<char>) -> Seq<char>
    decreases s.len(),
{
    if s.len() > 0 && s.last() == '/' {
        trim_end_slashes(s.drop_last())
    } else {
        s
    }
}

/// Whether `s` ends with `suffix`.
pub open spec fn ends_with(s: Seq<char>, suffix: Seq<char>) -> bool {
    s.len() >= suffix.len() && s.subrange(s.len() - suffix.len(), s.len() as int) == suffix
}

/// Whether `s` starts with `prefix`.
pub open spec fn starts_with(s: Seq<char>, prefix: Seq<char>) -> bool {
    s.len() >= prefix.len() && s.subrange(0, prefix.len() as int) == prefix
}

/// The endpoint `suffix` under `base`: trailing slashes of `base` dropped, and `suffix`
/// appended unless `base` already ends with it.
pub open spec fn endpoint_spec(base: Seq<char>, suffix: Seq<char>) -> Seq<char> {
    let t = trim_end_slashes(base);
    if ends_with(t, suffix) {
        t
    } else {
        t + suffix
    }
}

fn chars_end_with(c: &Vec<char>, n: usize, suffix: &Vec<char>) -> (r: bool)
    requires
        n <= c@.len(),
    ensures
        r == ends_with(c@.subrange(0, n as int), suffix@),
{
    if suffix.len() > n {
        return false;
    }
    let start = n - suffix.len();
    let mut i: usize = 0;
    while i < suffix.len()
        invariant
            start + suffix@.len() == n <= c@.len(),
            i <= suffix@.len(),
            forall|j: int| 0 <= j < i ==> c@[start + j] == suffix@[j],
        decreases suffix@.len() - i,
    {
        if c[start + i] != suffix[i] {
            assert(c@.subrange(0, n as int).subrange(start as int, n as int)[i as int] != suffix@[i as int]);
            return false;
        }
        i += 1;
    }
    assert(c@.subrange(0, n as int).subrange(start as int, n as int) =~= suffix@);
    true
}

proof fn lemma_trim_end_slashes_prefix(s: Seq<char>, n: int)
    requires
        0 <= n <= s.len(),
        forall|j: int| n <= j < s.len() ==> s[j] == '/',
    ensures
        trim_end_slashes(s) == trim_end_slashes(s.subrange(0, n)),
    decreases s.len(),
{
    if n < s.len() {
        assert(s.drop_last().subrange(0, n) =~= s.subrange(0, n));
        lemma_trim_end_slashes_prefix(s.drop_last(), n);
    } else {
        assert(s.subrange(0, n) =~= s);
    }
}

/// The endpoint `suffix` under `base`.
pub fn endpoint(base: &str, suffix: &str) -> (r: String)
    ensures
        r@ == endpoint_spec(base@, suffix@),
{
    let c = to_chars(base);
    let sc = to_chars(suffix);
    let mut n: usize = c.len();
    while n > 0 && c[n - 1] == '/'
        invariant
            n <= c@.len(),
            forall|j: int| n <= j < c@.len() ==> c@[j] == '/',
        decreases n,
    {
        n -= 1;
    }
    proof {
        lemma_trim_end_slashes_prefix(c@, n as int);
        assert(trim_end_slashes(c@.subrange(0, n as int)) == c@.subrange(0, n as int));
    }
    let mut r = string_of(c.as_slice(), 0, n);
    if !chars_end_with(&c, n, &sc) {
        r.append(suffix);
    }
    r
}

/// The JSON-RPC endpoint under `base`.
pub fn rpc_endpoint(base: &str) -> (r: String)
    ensures
        r@ == endpoint_spec(base@, "/rpc"@),
{
    endpoint(base, "/rpc")
}

/// The command endpoint under `base`.
pub fn command_endpoint(base: &str) -> (r: String)
    ensures
        r@ == endpoint_spec(base@, "/command"@),
{
    endpoint(base, "/command")
}

/// The event-stream endpoint under `base`, asking for events after `since` when it is not 0.
pub fn stream_endpoint(base: &str, since: u64) -> (r: String)
    ensures
        r@ == (if since == 0 {
            endpoint_spec(base@, "/stream"@)
        } else {
            endpoint_spec(base@, "/stream"@) + "?since="@ + decimal(since as nat)
        }),
{
    let mut r = endpoint(base, "/stream");
    if since != 0 {
        r.append("?since=");
        push_decimal(&mut r, since);
    }
    r
}

/// Whether a prompt is a slash command for the host: it starts with one `/`, not two.
pub fn is_remote_slash(prompt: &str) -> (r: bool)
    ensures
        r == (starts_with(prompt@, "/"@) && !starts_with(prompt@, "//"@)),
{
    let c = to_chars(prompt);
    proof {
        reveal_strlit("/");
        reveal_strlit("//");
        assert("/"@ =~= seq!['/']);
        assert("//"@ =~= seq!['/', '/']);
        if c@.len() >= 1 {
            assert(c@.subrange(0, 1) =~= seq![c@[0]]);
        }
        if c@.len() >= 2 {
            assert(c@.subrange(0, 2) =~= seq![c@[0], c@[1]]);
        }
    }
    if c.len() >= 1 && c[0] == '/' {
        if c.len() >= 2 && c[1] == '/' {
            assert(starts_with(prompt@, "//"@));
            false
        } else {
            assert(starts_with(prompt@, "/"@));
            assert(!starts_with(prompt@, "//"@));
            true
        }
    } else {
        proof {
            if c@.len() >= 1 {
                assert(c@.subrange(0, 1)[0] == c@[0]);
            }
        }
        assert(!starts_with(prompt@, "/"@));
        false
    }
}

/// The first position at or after `i` where `m` occurs in `t`.
pub open spec fn find_from(t: Seq<char>, m: Seq<char>, i: int) -> Option<int>
    decreases t.len() + 1 - i,
{
    if i < 0 || i + m.len() > t.len() {
        None
    } else if t.subrange(i, i + m.len()) == m {
        Some(i)
    } else {
        find_from(t, m, i + 1)
    }
}

/// The position where the first line of `s` from `i` on ends (a `\n`, or the end).
pub open spec fn line_end(s: Seq<char>, i: int) -> int
    decreases s.len() - i,
{
    if i < 0 || i >= s.len() || s[i] == '\n' {
        i
    } else {
        line_end(s, i + 1)
    }
}

/// The text after the first `Plot saved to:` marker: trimmed, its first line, trimmed again;
/// a path only when it ends with `.png`.
pub open spec fn plot_path_spec(text: Seq<char>) -> Option<Seq<char>> {
    let m = "Plot saved to:"@;
    match find_from(text, m, 0) {
        None => None,
        Some(i) => {
            let rest = trim(text.subrange(i + m.len(), text.len() as int));
            let path = trim(rest.subrange(0, line_end(rest, 0)));
            if ends_with(path, ".png"@) {
                Some(path)
            } else {
                None
            }
        },
    }
}

pub fn find_marker(t: &Vec<char>, m: &Vec<char>) -> (r: Option<usize>)
    ensures
        match r {
            Some(i) => find_from(t@, m@, 0) == Some(i as int) && i + m@.len() <= t@.len(),
            None => find_from(t@, m@, 0) is None,
        },
{
    if m.len() > t.len() {
        return None;
    }
    let tn = t.len();
    let last = tn - m.len();
    let mut i: usize = 0;
    while i <= last
        invariant
            m@.len() <= t@.len(),
            tn == t@.len(),
            last == t@.len() - m@.len(),
            find_from(t@, m@, 0) == find_from(t@, m@, i as int),
        decreases t@.len() + 1 - i,
    {
        let mut k: usize = 0;
        let mut same = true;
        while k < m.len()
            invariant
                i <= last,
                last == t@.len() - m@.len(),
                tn == t@.len(),
                k <= m@.len(),
                same == forall|j: int| 0 <= j < k ==> t@[i + j] == m@[j],
            decreases m@.len() - k,
        {
            if t[i + k] != m[k] {
                same = false;
            }
            k += 1;
        }
        if same {
            assert(t@.subrange(i as int, i + m@.len()) =~= m@);
            return Some(i);
        }
        proof {
            let j = choose|j: int| 0 <= j < m@.len() && t@[i + j] != m@[j];
            assert(t@.subrange(i as int, i + m@.len())[j] != m@[j]);
        }
        if i == last {
            return None;
        }
        i += 1;
    }
    None
}

/// The `.png` path that a `Plot saved to:` line in `text` announces, if any.
pub fn plot_path_from_text(text: &str) -> (r: Option<String>)
    ensures
        match r {
            Some(p) => plot_path_spec(text@) == Some(p@),
            None => plot_path_spec(text@) is None,
        },
{
    let t = to_chars(text);
    let m = to_chars("Plot saved to:");
    let tn = t.len();
    let i = match find_marker(&t, &m) {
        Some(i) => i,
        None => return None,
    };
    let rest_s = trimmed_string_of(t.as_slice(), i + m.len(), t.len());
    let rest = to_chars(rest_s.as_str());
    let mut e: usize = 0;
    while e < rest.len() && rest[e] != '\n'
        invariant
            e <= rest@.len(),
            line_end(rest@, 0) == line_end(rest@, e as int),
        decreases rest@.len() - e,
    {
        e += 1;
    }
    let path_s = trimmed_string_of(rest.as_slice(), 0, e);
    let path = to_chars(path_s.as_str());
    let png = to_chars(".png");
    if chars_end_with(&path, path.len(), &png) {
        assert(path@.subrange(0, path@.len() as int) =~= path@);
        Some(path_s)
    } else {
        assert(path@.subrange(0, path@.len() as int) =~= path@);
        None
    }
}

/// The text shown for a PNG artifact: a header naming the command (or just the type) and
/// the path, then the preview and a note, or a note that no preview is available.
pub open spec fn png_artifact_spec(path: Seq<char>, command: Option<Seq<char>>, preview: Option<Seq<char>>) -> Seq<char> {
    let header = match command {
        Some(name) => "/"@ + name + ": image/png\n"@ + path,
        None => "image/png: "@ + path,
    };
    match preview {
        Some(p) => header + "\n"@ + p
            + "\nPreview: monochrome terminal thumbnail; open the PNG path above for full fidelity."@,
        None => header + "\nPreview unavailable; open the PNG path above."@,
    }
}

/// The text shown for a PNG artifact at `path`, produced by `command` if given, with the
/// terminal `preview` of the image if one could be made.
pub fn png_artifact_text(path: &str, command: Option<&str>, preview: Option<String>) -> (r: String)
    ensures
        r@ == png_artifact_spec(
            path@,
            match command {
                Some(c) => Some(c@),
                None => None,
            },
            match preview {
                Some(p) => Some(p@),
                None => None,
            },
        ),
{
    let mut s = String::new();
    match command {
        Some(name) => {
            s.append("/");
            s.append(name);
            s.append(": image/png\n");
            s.append(path);
        },
        None => {
            s.append("image/png: ");
            s.append(path);
        },
    }
    match preview {
        Some(p) => {
            s.append("\n");
            s.append(p.as_str());
            s.append(
                "\nPreview: monochrome terminal thumbnail; open the PNG path above for full fidelity.",
            );
        },
        None => {
            s.append("\nPreview unavailable; open the PNG path above.");
        },
    }
    s
}

/// A command as plain values: name, description, usage.
pub type CommandModel = (Seq<char>, Seq<char>, Seq<char>);

/// Commands as plain values.
pub open spec fn commands_view(c: Seq<CommandInfo>) -> Seq<CommandModel> {
    c.map_values(|x: CommandInfo| (x.name@, x.description@, x.usage@))
}

/// The commands the client handles itself.
pub open spec fn local_commands() -> Seq<CommandModel> {
    seq![
        ("quit"@, "Quit the TUI."@, "/quit"@),
        ("exit"@, "Quit the TUI."@, "/exit"@),
        ("q"@, "Quit the TUI."@, "/q"@),
    ]
}

/// The commands the client handles itself.
pub fn local_command_catalog() -> (r: Vec<CommandInfo>)
    ensures
        commands_view(r@) == local_commands(),
{
    let mut r: Vec<CommandInfo> = Vec::new();
    r.push(
        CommandInfo {
            name: String::from_str("quit"),
            description: String::from_str("Quit the TUI."),
            usage: String::from_str("/quit"),
        },
    );
    r.push(
        CommandInfo {
            name: String::from_str("exit"),
            description: String::from_str("Quit the TUI."),
            usage: String::from_str("/exit"),
        },
    );
    r.push(
        CommandInfo {
            name: String::from_str("q"),
            description: String::from_str("Quit the TUI."),
            usage: String::from_str("/q"),
        },
    );
    assert(commands_view(r@) =~= local_commands());
    r
}

/// One command as listed: `- usage`, with ` - description` when there is one; the usage
/// defaults to `/name`.
pub open spec fn command_line(c: CommandModel) -> Seq<char> {
    let usage = if c.2.len() == 0 {
        "/"@ + c.0
    } else {
        c.2
    };
    if c.1.len() == 0 {
        "- "@ + usage
    } else {
        "- "@ + usage + " - "@ + c.1
    }
}

/// The listed commands, each on a line of its own after a newline.
pub open spec fn command_lines(cs: Seq<CommandModel>) -> Seq<char>
    decreases cs.len(),
{
    if cs.len() == 0 {
        Seq::empty()
    } else {
        command_lines(cs.drop_last()) + "\n"@ + command_line(cs.last())
    }
}

/// A titled command list: `title:` and one line per command, or `title` and `(none)`.
pub open spec fn format_commands_spec(title: Seq<char>, cs: Seq<CommandModel>) -> Seq<char> {
    if cs.len() == 0 {
        title + "\n(none)"@
    } else {
        title + ":"@ + command_lines(cs)
    }
}

/// A titled command list for display.
pub fn format_command_infos(title: &str, commands: &[CommandInfo]) -> (r: String)
    ensures
        r@ == format_commands_spec(title@, commands_view(commands@)),
{
    let mut s = String::from_str(title);
    if commands.len() == 0 {
        s.append("\n(none)");
        return s;
    }
    s.append(":");
    let ghost cs = commands_view(commands@);
    let mut i: usize = 0;
    assert(cs.take(0) =~= Seq::<CommandModel>::empty());
    while i < commands.len()
        invariant
            cs == commands_view(commands@),
            i <= commands@.len(),
            s@ == title@ + ":"@ + command_lines(cs.take(i as int)),
        decreases commands@.len() - i,
    {
        let cmd = &commands[i];
        s.append("\n");
        s.append("- ");
        if cmd.usage.as_str().is_empty() {
            s.append("/");
            s.append(cmd.name.as_str());
        } else {
            s.append(cmd.usage.as_str());
        }
        if !cmd.description.as_str().is_empty() {
            s.append(" - ");
            s.append(cmd.description.as_str());
        }
        assert(cs.take(i + 1 as int).drop_last() =~= cs.take(i as int));
        i += 1;
        assert(s@ =~= title@ + ":"@ + command_lines(cs.take(i as int)));
    }
    assert(cs.take(i as int) =~= cs);
    s
}

/// The value following a command-line flag, or the error that it is missing.
pub fn next_arg(value: Option<String>, flag: &str) -> (r: Result<String, String>)
    ensures
        match value {
            Some(v) => r == Ok::<String, String>(v),
            None => r matches Err(m) && m@ == flag@ + " requires a value"@,
        },
{
    match value {
        Some(v) => Ok(v),
        None => {
            let mut m = String::from_str(flag);
            m.append(" requires a value");
            Err(m)
        },
    }
}

} // verus!
