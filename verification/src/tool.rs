//! Function calling: the tool declarations advertised to the model, and the parser for the
//! Pythonic call syntax it emits back.
//!
//! Tools are advertised as JSON objects `{"name":…,"description":…,"parameters":{…}}`; the
//! model answers with a Python-style list such as `[get_weather(city='Paris'), add(a=21, b=21)]`.

use vstd::prelude::*;

use crate::text::{
    char_alphabetic, char_numeric, is_alphabetic, is_numeric, is_whitespace, is_ws,
    lemma_ws_end_bounds, str_eq, string_of, to_chars, trim, trimmed_string_of, ws_end,
};

verus! {

// ---------------------------------------------------------------------------------------------
// JSON rendering
// ---------------------------------------------------------------------------------------------

/// The lower-case hexadecimal digit for `d` (`0 <= d < 16`).
pub open spec fn hex_digit(d: int) -> char {
    if d < 10 {
        (48 + d) as char
    } else {
        (87 + d) as char
    }
}

/// `{:04x}`: four lower-case hexadecimal digits of `v` (`v < 0x10000`).
pub open spec fn hex4(v: int) -> Seq<char> {
    seq![
        hex_digit((v / 4096) % 16),
        hex_digit((v / 256) % 16),
        hex_digit((v / 16) % 16),
        hex_digit(v % 16),
    ]
}

/// How one character is written inside a JSON string literal.
pub open spec fn json_escape_char(c: char) -> Seq<char> {
    if c == '"' {
        seq!['\\', '"']
    } else if c == '\\' {
        seq!['\\', '\\']
    } else if c == '\n' {
        seq!['\\', 'n']
    } else if c == '\r' {
        seq!['\\', 'r']
    } else if c == '\t' {
        seq!['\\', 't']
    } else if (c as u32) < 0x20 {
        seq!['\\', 'u'] + hex4(c as u32 as int)
    } else {
        seq![c]
    }
}

/// The escaped body of a JSON string literal for `s`.
pub open spec fn json_escape(s: Seq<char>) -> Seq<char>
    decreases s.len(),
{
    if s.len() == 0 {
        Seq::empty()
    } else {
        json_escape(s.drop_last()) + json_escape_char(s.last())
    }
}

/// `s` written as a JSON string literal: quotes around the escaped text.
pub open spec fn json_string(s: Seq<char>) -> Seq<char> {
    seq!['"'] + json_escape(s) + seq!['"']
}

fn hex_digit_char(d: u32) -> (c: char)
    requires
        d < 16,
    ensures
        c == hex_digit(d as int),
{
    match d {
        0 => '0',
        1 => '1',
        2 => '2',
        3 => '3',
        4 => '4',
        5 => '5',
        6 => '6',
        7 => '7',
        8 => '8',
        9 => '9',
        10 => 'a',
        11 => 'b',
        12 => 'c',
        13 => 'd',
        14 => 'e',
        _ => 'f',
    }
}

fn push_escaped_char(out: &mut String, c: char)
    ensures
        final(out)@ == old(out)@ + json_escape_char(c),
{
    if c == '"' {
        out.push('\\');
        out.push('"');
    } else if c == '\\' {
        out.push('\\');
        out.push('\\');
    } else if c == '\n' {
        out.push('\\');
        out.push('n');
    } else if c == '\r' {
        out.push('\\');
        out.push('r');
    } else if c == '\t' {
        out.push('\\');
        out.push('t');
    } else if (c as u32) < 0x20 {
        let v = c as u32;
        out.push('\\');
        out.push('u');
        out.push(hex_digit_char((v / 4096) % 16));
        out.push(hex_digit_char((v / 256) % 16));
        out.push(hex_digit_char((v / 16) % 16));
        out.push(hex_digit_char(v % 16));
    } else {
        out.push(c);
    }
    assert(final(out)@ =~= old(out)@ + json_escape_char(c));
}

/// Appends `s` to `out` as a JSON string literal (surrounding quotes plus escaping).
fn push_json_string(out: &mut String, s: &str)
    ensures
        final(out)@ == old(out)@ + json_string(s@),
{
    let ghost start = out@;
    out.push('"');
    let cs = to_chars(s);
    let mut i: usize = 0;
    while i < cs.len()
        invariant
            i <= cs@.len(),
            cs@ == s@,
            out@ == start + seq!['"'] + json_escape(cs@.take(i as int)),
        decreases cs@.len() - i,
    {
        push_escaped_char(out, cs[i]);
        assert(cs@.take(i + 1 as int).drop_last() =~= cs@.take(i as int));
        i += 1;
    }
    assert(cs@.take(i as int) =~= s@);
    out.push('"');
    assert(out@ =~= start + json_string(s@));
}

// ---------------------------------------------------------------------------------------------
// Tool declarations
// ---------------------------------------------------------------------------------------------

/// A JSON-Schema parameter type. Renders the `"type":"…"` field the model was trained on.
#[derive(Clone, Copy, Debug, PartialEq, Eq, Structural)]
pub enum Type {
    Str,
    Int,
    Num,
    Bool,
}

/// The JSON-Schema name of a parameter type.
pub open spec fn type_json(t: Type) -> Seq<char> {
    match t {
        Type::Str => "string"@,
        Type::Int => "integer"@,
        Type::Num => "number"@,
        Type::Bool => "boolean"@,
    }
}

impl Type {
    fn json(self) -> (r: &'static str)
        ensures
            r@ == type_json(self),
    {
        match self {
            Type::Str => "string",
            Type::Int => "integer",
            Type::Num => "number",
            Type::Bool => "boolean",
        }
    }
}

/// One declared parameter of a [`Schema`].
struct Param {
    name: String,
    ty: Type,
    desc: String,
    required: bool,
}

/// A declared parameter as plain values: name, type, description, whether it is required.
pub type ParamModel = (Seq<char>, Type, Seq<char>, bool);

impl View for Param {
    type V = ParamModel;

    closed spec fn view(&self) -> ParamModel {
        (self.name@, self.ty, self.desc@, self.required)
    }
}

/// Builder for a tool's `parameters` object. Renders the JSON-Schema string
/// `{"type":"object","properties":{…},"required":[…]}`; fields are emitted in the order they
/// were added.
pub struct Schema {
    params: Vec<Param>,
}

impl View for Schema {
    type V = Seq<ParamModel>;

    closed spec fn view(&self) -> Seq<ParamModel> {
        self.params@.map_values(|p: Param| p@)
    }
}

/// One property entry: `"name":{"type":"…","description":"…"}`.
pub open spec fn property_json(p: ParamModel) -> Seq<char> {
    json_string(p.0) + ":{\"type\":\""@ + type_json(p.1) + "\",\"description\":"@ + json_string(p.2)
        + seq!['}']
}

/// The property entries of `ps`, in order, separated by commas.
pub open spec fn properties_json(ps: Seq<ParamModel>) -> Seq<char>
    decreases ps.len(),
{
    if ps.len() == 0 {
        Seq::empty()
    } else if ps.len() == 1 {
        property_json(ps[0])
    } else {
        properties_json(ps.drop_last()) + seq![','] + property_json(ps.last())
    }
}

/// The names of the required parameters of `ps`, in order.
pub open spec fn required_names(ps: Seq<ParamModel>) -> Seq<Seq<char>>
    decreases ps.len(),
{
    if ps.len() == 0 {
        Seq::empty()
    } else if ps.last().3 {
        required_names(ps.drop_last()).push(ps.last().0)
    } else {
        required_names(ps.drop_last())
    }
}

/// JSON string literals for `names`, separated by commas.
pub open spec fn json_string_list(names: Seq<Seq<char>>) -> Seq<char>
    decreases names.len(),
{
    if names.len() == 0 {
        Seq::empty()
    } else if names.len() == 1 {
        json_string(names[0])
    } else {
        json_string_list(names.drop_last()) + seq![','] + json_string(names.last())
    }
}

/// The whole `parameters` object for `ps`.
pub open spec fn schema_json(ps: Seq<ParamModel>) -> Seq<char> {
    "{\"type\":\"object\",\"properties\":{"@ + properties_json(ps) + "},\"required\":["@
        + json_string_list(required_names(ps)) + "]}"@
}

impl Default for Schema {
    fn default() -> (s: Self)
        ensures
            s@ == Seq::<ParamModel>::empty(),
    {
        let s = Schema { params: Vec::new() };
        assert(s@ =~= Seq::<ParamModel>::empty());
        s
    }
}

impl Schema {
    /// An empty parameter list.
    pub fn new() -> (s: Self)
        ensures
            s@ == Seq::<ParamModel>::empty(),
    {
        Schema::default()
    }

    /// Add a required parameter.
    pub fn req(self, name: &str, ty: Type, desc: &str) -> (s: Self)
        ensures
            s@ == self@.push((name@, ty, desc@, true)),
    {
        self.add(name, ty, desc, true)
    }

    /// Add an optional parameter.
    pub fn opt(self, name: &str, ty: Type, desc: &str) -> (s: Self)
        ensures
            s@ == self@.push((name@, ty, desc@, false)),
    {
        self.add(name, ty, desc, false)
    }

    fn add(self, name: &str, ty: Type, desc: &str, required: bool) -> (s: Self)
        ensures
            s@ == self@.push((name@, ty, desc@, required)),
    {
        let ghost before = self@;
        let mut params = self.params;
        let p = Param { name: name.to_owned(), ty, desc: desc.to_owned(), required };
        params.push(p);
        let s = Schema { params };
        assert(s@ =~= before.push((name@, ty, desc@, required)));
        s
    }

    /// Append the rendered `parameters` JSON object to `out`.
    #[verifier::spinoff_prover]
    #[verifier::rlimit(40)]
    fn render(&self, out: &mut String)
        ensures
            final(out)@ == old(out)@ + schema_json(self@),
    {
        let ghost ps = self@;
        let ghost start = out@;
        out.append("{\"type\":\"object\",\"properties\":{");
        let ghost head = out@;
        let mut i: usize = 0;
        while i < self.params.len()
            invariant
                ps == self@,
                i <= self.params@.len(),
                out@ == head + properties_json(ps.take(i as int)),
            decreases self.params@.len() - i,
        {
            let p = &self.params[i];
            if i > 0 {
                out.push(',');
            }
            push_json_string(out, p.name.as_str());
            out.append(":{\"type\":\"");
            out.append(p.ty.json());
            out.append("\",\"description\":");
            push_json_string(out, p.desc.as_str());
            out.push('}');
            proof {
                let t = ps.take(i + 1 as int);
                assert(t.drop_last() =~= ps.take(i as int));
                assert(t.last() == p@);
                assert(ps.take(0) =~= Seq::<ParamModel>::empty());
            }
            i += 1;
        }
        assert(ps.take(i as int) =~= ps);
        out.append("},\"required\":[");
        let ghost mid = out@;
        let mut first = true;
        let mut j: usize = 0;
        while j < self.params.len()
            invariant
                ps == self@,
                j <= self.params@.len(),
                first == (required_names(ps.take(j as int)).len() == 0),
                out@ == mid + json_string_list(required_names(ps.take(j as int))),
            decreases self.params@.len() - j,
        {
            let p = &self.params[j];
            proof {
                let t = ps.take(j + 1 as int);
                assert(t.drop_last() =~= ps.take(j as int));
                assert(t.last() == p@);
            }
            if p.required {
                proof {
                    let names = required_names(ps.take(j as int));
                    assert(names.push(p@.0).drop_last() =~= names);
                }
                if !first {
                    out.push(',');
                }
                first = false;
                push_json_string(out, p.name.as_str());
            }
            j += 1;
        }
        assert(ps.take(j as int) =~= ps);
        out.append("]}");
        assert(out@ =~= start + schema_json(ps));
    }
}

/// A registered tool: its JSON declaration (advertised to the model in the system block) plus
/// the callback invoked when the model calls it.
#[derive(Clone)]
pub struct Tool<F> {
    /// Must match the `name` inside `schema` (what the model emits and calls dispatch on).
    name: String,
    /// Tool JSON: `{"name":…,"description":…,"parameters":{…}}`.
    schema: String,
    /// Invoked with the parsed call; returns the result text fed back to the model.
    call: F,
}

/// The full tool declaration for a name, a description and a parameter list.
pub open spec fn tool_json(name: Seq<char>, description: Seq<char>, ps: Seq<ParamModel>) -> Seq<
    char,
> {
    "{\"name\":"@ + json_string(name) + ",\"description\":"@ + json_string(description)
        + ",\"parameters\":"@ + schema_json(ps) + seq!['}']
}

impl<F> Tool<F> {
    /// The tool's name as plain text.
    pub closed spec fn name_view(&self) -> Seq<char> {
        self.name@
    }

    /// The tool's JSON declaration as plain text.
    pub closed spec fn schema_view(&self) -> Seq<char> {
        self.schema@
    }

    /// The tool's callback.
    pub closed spec fn callback(&self) -> F {
        self.call
    }

    /// The tool's name (the identifier the model emits and calls dispatch on).
    pub fn name(&self) -> (r: &str)
        ensures
            r@ == self.name_view(),
    {
        self.name.as_str()
    }

    /// The tool's JSON declaration, as emitted into the `List of tools:` preamble.
    pub fn schema(&self) -> (r: &str)
        ensures
            r@ == self.schema_view(),
    {
        self.schema.as_str()
    }
}

impl<F: Fn(&ToolCall) -> String> Tool<F> {
    /// Define a tool from structured parameters; the full tool JSON (with `name` and
    /// `description` JSON-escaped) is assembled from `params`.
    pub fn new(name: &str, description: &str, params: Schema, call: F) -> (t: Self)
        ensures
            t.name_view() == name@,
            t.schema_view() == tool_json(name@, description@, params@),
            t.callback() == call,
    {
        let mut schema = String::new();
        schema.append("{\"name\":");
        push_json_string(&mut schema, name);
        schema.append(",\"description\":");
        push_json_string(&mut schema, description);
        schema.append(",\"parameters\":");
        params.render(&mut schema);
        schema.push('}');
        assert(schema@ =~= tool_json(name@, description@, params@));
        Tool { name: name.to_owned(), schema, call }
    }

    /// Supply the entire tool JSON (including `parameters`) verbatim. `name` must match the
    /// `"name"` field inside `schema` so calls dispatch correctly.
    pub fn raw(name: &str, schema: &str, call: F) -> (t: Self)
        ensures
            t.name_view() == name@,
            t.schema_view() == schema@,
            t.callback() == call,
    {
        Tool { name: name.to_owned(), schema: schema.to_owned(), call }
    }

    /// Run the tool's callback for a parsed call.
    pub(crate) fn invoke(&self, call: &ToolCall) -> (r: String)
        requires
            call_requires(self.callback(), (call,)),
        ensures
            call_ensures(self.callback(), (call,), r),
    {
        (self.call)(call)
    }
}

// ---------------------------------------------------------------------------------------------
// Parsed calls
// ---------------------------------------------------------------------------------------------

/// One parsed tool call: the function name and its keyword arguments.
pub struct ToolCall {
    pub name: String,
    /// `(arg name, value text)` in call order. Quotes are stripped from simple string literals;
    /// `{…}`/`[…]` values are kept verbatim.
    args: Vec<(String, String)>,
    /// The raw call text, e.g. `get_weather(city='Paris')`.
    pub raw: String,
}

/// A keyword argument as plain text: `(name, value)`.
pub type ArgModel = (Seq<char>, Seq<char>);

/// A parsed call as plain text: `(name, arguments, raw call text)`.
pub type CallModel = (Seq<char>, Seq<ArgModel>, Seq<char>);

/// The arguments of a call as plain text.
pub open spec fn args_view(args: Seq<(String, String)>) -> Seq<ArgModel> {
    args.map_values(|a: (String, String)| (a.0@, a.1@))
}

impl View for ToolCall {
    type V = CallModel;

    closed spec fn view(&self) -> CallModel {
        (self.name@, args_view(self.args@), self.raw@)
    }
}

/// The value of the first argument called `key`, if any.
pub open spec fn first_arg(args: Seq<ArgModel>, key: Seq<char>) -> Option<Seq<char>>
    decreases args.len(),
{
    if args.len() == 0 {
        None
    } else if args[0].0 == key {
        Some(args[0].1)
    } else {
        first_arg(args.drop_first(), key)
    }
}

/// Parses `s` into a value of `T` with `str::parse` (that is, `T::from_str`), dropping the
/// error. Which strings parse, and into what, is up to `T`'s `FromStr` impl: nothing is
/// stated of the result.
#[verifier::external_body]
fn parse_str<T: std::str::FromStr>(s: &str) -> Option<T> {
    s.parse().ok()
}

impl ToolCall {
    /// The value passed for argument `name`, if present.
    pub fn arg(&self, name: &str) -> (r: Option<&str>)
        ensures
            r is Some == first_arg(self@.1, name@) is Some,
            r is Some ==> r.unwrap()@ == first_arg(self@.1, name@).unwrap(),
    {
        let ghost all = self@.1;
        assert(all.skip(0) =~= all);
        let mut i: usize = 0;
        while i < self.args.len()
            invariant
                all == self@.1,
                i <= all.len(),
                first_arg(all, name@) == first_arg(all.skip(i as int), name@),
            decreases self.args@.len() - i,
        {
            assert(all.skip(i as int).drop_first() =~= all.skip(i + 1 as int));
            assert(all.skip(i as int)[0] == (self.args@[i as int].0@, self.args@[i as int].1@));
            if str_eq(self.args[i].0.as_str(), name) {
                assert(first_arg(all.skip(i as int), name@) == Some(all.skip(i as int)[0].1));
                return Some(self.args[i].1.as_str());
            }
            i += 1;
        }
        None
    }

    /// All parsed keyword arguments in call order.
    pub fn args(&self) -> (r: &[(String, String)])
        ensures
            args_view(r@) == self@.1,
    {
        self.args.as_slice()
    }

    /// Argument `name` parsed into type `T` via `FromStr`. `None` if the argument is absent or
    /// its value does not parse as `T`.
    pub fn parse_arg<T: std::str::FromStr>(&self, name: &str) -> (r: Option<T>)
        ensures
            first_arg(self@.1, name@) is None ==> r is None,
    {
        match self.arg(name) {
            Some(v) => parse_str(v),
            None => None,
        }
    }
}

// ---------------------------------------------------------------------------------------------
// The call-list grammar
// ---------------------------------------------------------------------------------------------

/// The character at `i`, if `i` is inside `c`.
pub open spec fn peek_at(c: Seq<char>, i: int) -> Option<char> {
    if 0 <= i < c.len() {
        Some(c[i])
    } else {
        None
    }
}

/// Characters of a (possibly dotted) identifier.
/// (`char::is_alphabetic`, `char::is_numeric`, `_` or `.`; among ASCII characters, the letters,
/// the digits, `_` and `.`.)
pub open spec fn is_ident_char(ch: char) -> bool {
    if (ch as u32) < 128 {
        ('a' <= ch <= 'z') || ('A' <= ch <= 'Z') || ('0' <= ch <= '9') || ch == '_' || ch == '.'
    } else {
        (char_alphabetic(ch) || char_numeric(ch)) && !is_ws(ch)
    }
}

/// The end of the identifier that starts at `i`.
pub open spec fn ident_end(c: Seq<char>, i: int) -> int
    decreases c.len() - i,
{
    if 0 <= i < c.len() && is_ident_char(c[i]) {
        ident_end(c, i + 1)
    } else {
        i
    }
}

/// Characters that end a bare value.
pub open spec fn is_bare_stop(ch: char) -> bool {
    ch == ',' || ch == ')' || ch == ']' || ch == '}'
}

/// The end of the bare value that starts at `i`.
pub open spec fn bare_end(c: Seq<char>, i: int) -> int
    decreases c.len() - i,
{
    if 0 <= i < c.len() && !is_bare_stop(c[i]) {
        bare_end(c, i + 1)
    } else {
        i
    }
}

/// The character a backslash escape `\esc` stands for inside a quoted value.
pub open spec fn unescape(esc: char) -> char {
    if esc == 'n' {
        '\n'
    } else if esc == 't' {
        '\t'
    } else if esc == 'r' {
        '\r'
    } else {
        esc
    }
}

/// The rest of a string quoted with `q`, scanned from `j`: the unescaped text (after `acc`) and
/// the position just past the closing quote (or the end of the input).
pub open spec fn quoted_from(c: Seq<char>, j: int, q: char, acc: Seq<char>) -> (Seq<char>, int)
    decreases c.len() - j,
{
    if j < 0 || j >= c.len() {
        (acc, j)
    } else if c[j] == '\\' {
        if j + 1 < c.len() {
            quoted_from(c, j + 2, q, acc.push(unescape(c[j + 1])))
        } else {
            (acc, j + 1)
        }
    } else if c[j] == q {
        (acc, j + 1)
    } else {
        quoted_from(c, j + 1, q, acc.push(c[j]))
    }
}

/// Where a `open … close` literal scanned from `j` ends: just past the `close` that brings the
/// nesting `depth` back to zero, skipping quoted text (`in_str` is the open quote, if any).
/// A backslash at the very end of the input makes this one past the end of the input.
pub open spec fn balanced_from(
    c: Seq<char>,
    j: int,
    open: char,
    close: char,
    depth: int,
    in_str: Option<char>,
) -> int
    decreases c.len() + 1 - j,
{
    if j < 0 || j >= c.len() {
        j
    } else {
        let ch = c[j];
        match in_str {
            Some(q) => {
                if ch == '\\' {
                    balanced_from(c, j + 2, open, close, depth, in_str)
                } else if ch == q {
                    balanced_from(c, j + 1, open, close, depth, None)
                } else {
                    balanced_from(c, j + 1, open, close, depth, in_str)
                }
            },
            None => {
                if ch == '\'' || ch == '"' {
                    balanced_from(c, j + 1, open, close, depth, Some(ch))
                } else if ch == open {
                    balanced_from(c, j + 1, open, close, depth + 1, None)
                } else if ch == close {
                    if depth - 1 == 0 {
                        j + 1
                    } else {
                        balanced_from(c, j + 1, open, close, depth - 1, None)
                    }
                } else {
                    balanced_from(c, j + 1, open, close, depth, None)
                }
            },
        }
    }
}

/// `e`, or the end of `c` when `e` lies past it.
pub open spec fn at_most_len(c: Seq<char>, e: int) -> int {
    if e <= c.len() {
        e
    } else {
        c.len() as int
    }
}

/// One argument value read at `i` (after whitespace): a quoted string (unescaped), a balanced
/// `{…}` / `[…]` literal (verbatim, up to the end of the input when it is not closed, even by a
/// trailing backslash), or a bare token (trimmed); with the position after it.
pub open spec fn value_at(c: Seq<char>, i: int) -> Option<(Seq<char>, int)> {
    let j = ws_end(c, i);
    if j < c.len() && (c[j] == '\'' || c[j] == '"') {
        Some(quoted_from(c, j + 1, c[j], Seq::empty()))
    } else if j < c.len() && (c[j] == '{' || c[j] == '[') {
        let close = if c[j] == '{' {
            '}'
        } else {
            ']'
        };
        let e = at_most_len(c, balanced_from(c, j, c[j], close, 0, None));
        Some((c.subrange(j, e), e))
    } else {
        let e = bare_end(c, j);
        Some((trim(c.subrange(j, e)), e))
    }
}

/// The keyword arguments of a call, read from `i` up to and including the closing `)` (or the
/// end of the input), after the ones already read (`acc`); with the position after them.
/// Reading stops rather than spins where an argument reads as nothing (a `]` or `}` where an
/// argument should start): the call ends there. `None` only for a start outside the input.
pub open spec fn args_from(c: Seq<char>, i: int, acc: Seq<ArgModel>) -> Option<
    (Seq<ArgModel>, int),
>
    decreases c.len() - i,
    via args_from_decreases
{
    if i < 0 || i > c.len() {
        None
    } else {
        let j = ws_end(c, i);
        if j >= c.len() {
            Some((acc, j))
        } else if c[j] == ')' {
            Some((acc, j + 1))
        } else if c[j] == ',' {
            args_from(c, j + 1, acc)
        } else {
            let k = ident_end(c, j);
            let k2 = ws_end(c, k);
            let k3 = if peek_at(c, k2) == Some('=') {
                k2 + 1
            } else {
                k2
            };
            match value_at(c, k3) {
                None => None,
                Some((v, e)) => {
                    if e <= j {
                        Some((acc, j))
                    } else {
                        args_from(c, e, acc.push((c.subrange(j, k), v)))
                    }
                },
            }
        }
    }
}

/// One call `name(args…)` read at `i`: `Some(None)` if no call starts there (no identifier, or
/// no `(` after it), `Some(Some((call, end)))` for a call. (`None` never occurs for a start
/// inside the input.)
pub open spec fn call_at(c: Seq<char>, i: int) -> Option<Option<(CallModel, int)>> {
    let start = ws_end(c, i);
    let n = ident_end(c, start);
    let p = ws_end(c, n);
    if n == start || peek_at(c, p) != Some('(') {
        Some(None)
    } else {
        match args_from(c, p + 1, Seq::empty()) {
            None => None,
            Some((args, e)) => Some(
                Some(((c.subrange(start, n), args, trim(c.subrange(start, e))), e)),
            ),
        }
    }
}

/// The calls read from `i` on, after the ones already read (`acc`): calls separated by commas
/// until the end of the input, a `]`, or text that is not a call. (`None` never occurs for a
/// start inside the input.)
pub open spec fn calls_from(c: Seq<char>, i: int, acc: Seq<CallModel>) -> Option<Seq<CallModel>>
    decreases c.len() - i,
    via calls_from_decreases
{
    if i < 0 || i > c.len() {
        None
    } else {
        let j = ws_end(c, i);
        if j >= c.len() {
            Some(acc)
        } else if c[j] == ']' {
            Some(acc)
        } else if c[j] == ',' {
            calls_from(c, j + 1, acc)
        } else {
            match call_at(c, j) {
                None => None,
                Some(None) => Some(acc),
                Some(Some((call, e))) => calls_from(c, e, acc.push(call)),
            }
        }
    }
}

/// The calls in a call list such as `[f(a=1), g(b='x')]` (the outer brackets are optional).
/// Always `Some` (see [`lemma_tool_calls_total`]).
pub open spec fn tool_calls(c: Seq<char>) -> Option<Seq<CallModel>> {
    let j = ws_end(c, 0);
    let s = if peek_at(c, j) == Some('[') {
        j + 1
    } else {
        j
    };
    calls_from(c, s, Seq::empty())
}

pub proof fn lemma_ident_end_bounds(c: Seq<char>, i: int)
    requires
        0 <= i <= c.len(),
    ensures
        i <= ident_end(c, i) <= c.len(),
        forall|k: int| i <= k < ident_end(c, i) ==> is_ident_char(#[trigger] c[k]),
    decreases c.len() - i,
{
    if i < c.len() && is_ident_char(c[i]) {
        lemma_ident_end_bounds(c, i + 1);
    }
}

pub proof fn lemma_bare_end_bounds(c: Seq<char>, i: int)
    requires
        0 <= i <= c.len(),
    ensures
        i <= bare_end(c, i) <= c.len(),
    decreases c.len() - i,
{
    if i < c.len() && !is_bare_stop(c[i]) {
        lemma_bare_end_bounds(c, i + 1);
    }
}

pub proof fn lemma_quoted_from_bounds(c: Seq<char>, j: int, q: char, acc: Seq<char>)
    requires
        0 <= j <= c.len(),
    ensures
        j <= quoted_from(c, j, q, acc).1 <= c.len(),
    decreases c.len() - j,
{
    if j < c.len() {
        if c[j] == '\\' {
            if j + 1 < c.len() {
                lemma_quoted_from_bounds(c, j + 2, q, acc.push(unescape(c[j + 1])));
            }
        } else if c[j] != q {
            lemma_quoted_from_bounds(c, j + 1, q, acc.push(c[j]));
        }
    }
}

pub proof fn lemma_balanced_from_bounds(
    c: Seq<char>,
    j: int,
    open: char,
    close: char,
    depth: int,
    in_str: Option<char>,
)
    requires
        0 <= j <= c.len() + 1,
    ensures
        j <= balanced_from(c, j, open, close, depth, in_str),
    decreases c.len() + 1 - j,
{
    if 0 <= j < c.len() {
        let ch = c[j];
        match in_str {
            Some(q) => {
                if ch == '\\' {
                    lemma_balanced_from_bounds(c, j + 2, open, close, depth, in_str);
                } else if ch == q {
                    lemma_balanced_from_bounds(c, j + 1, open, close, depth, None);
                } else {
                    lemma_balanced_from_bounds(c, j + 1, open, close, depth, in_str);
                }
            },
            None => {
                if ch == '\'' || ch == '"' {
                    lemma_balanced_from_bounds(c, j + 1, open, close, depth, Some(ch));
                } else if ch == open {
                    lemma_balanced_from_bounds(c, j + 1, open, close, depth + 1, None);
                } else if ch == close {
                    if depth - 1 != 0 {
                        lemma_balanced_from_bounds(c, j + 1, open, close, depth - 1, None);
                    }
                } else {
                    lemma_balanced_from_bounds(c, j + 1, open, close, depth, None);
                }
            },
        }
    }
}

pub proof fn lemma_value_at_bounds(c: Seq<char>, i: int)
    requires
        0 <= i <= c.len(),
    ensures
        value_at(c, i) is Some,
        value_at(c, i) matches Some((v, e)) ==> ws_end(c, i) <= e <= c.len(),
{
    lemma_ws_end_bounds(c, i);
    let j = ws_end(c, i);
    if j < c.len() && (c[j] == '\'' || c[j] == '"') {
        lemma_quoted_from_bounds(c, j + 1, c[j], Seq::empty());
    } else if j < c.len() && (c[j] == '{' || c[j] == '[') {
        let close = if c[j] == '{' {
            '}'
        } else {
            ']'
        };
        lemma_balanced_from_bounds(c, j, c[j], close, 0, None);
    } else {
        lemma_bare_end_bounds(c, j);
    }
}

#[via_fn]
proof fn args_from_decreases(c: Seq<char>, i: int, acc: Seq<ArgModel>) {
    if 0 <= i <= c.len() {
        lemma_ws_end_bounds(c, i);
        let j = ws_end(c, i);
        if j < c.len() && c[j] != ')' && c[j] != ',' {
            lemma_ident_end_bounds(c, j);
            let k = ident_end(c, j);
            lemma_ws_end_bounds(c, k);
            let k2 = ws_end(c, k);
            let k3 = if peek_at(c, k2) == Some('=') {
                k2 + 1
            } else {
                k2
            };
            lemma_value_at_bounds(c, k3);
        }
    }
}

pub proof fn lemma_args_from_bounds(c: Seq<char>, i: int, acc: Seq<ArgModel>)
    requires
        0 <= i <= c.len(),
    ensures
        args_from(c, i, acc) is Some,
        args_from(c, i, acc) matches Some((a, e)) ==> i <= e <= c.len(),
    decreases c.len() - i,
{
    lemma_ws_end_bounds(c, i);
    let j = ws_end(c, i);
    if j < c.len() {
        if c[j] == ',' {
            lemma_args_from_bounds(c, j + 1, acc);
        } else if c[j] != ')' {
            lemma_ident_end_bounds(c, j);
            let k = ident_end(c, j);
            lemma_ws_end_bounds(c, k);
            let k2 = ws_end(c, k);
            let k3 = if peek_at(c, k2) == Some('=') {
                k2 + 1
            } else {
                k2
            };
            lemma_value_at_bounds(c, k3);
            match value_at(c, k3) {
                None => {},
                Some((v, e)) => {
                    if e > j {
                        lemma_args_from_bounds(c, e, acc.push((c.subrange(j, k), v)));
                    }
                },
            }
        }
    }
}

#[via_fn]
proof fn calls_from_decreases(c: Seq<char>, i: int, acc: Seq<CallModel>) {
    if 0 <= i <= c.len() {
        lemma_ws_end_bounds(c, i);
        let j = ws_end(c, i);
        if j < c.len() && c[j] != ']' && c[j] != ',' {
            lemma_ws_end_bounds(c, j);
            let start = ws_end(c, j);
            lemma_ident_end_bounds(c, start);
            let n = ident_end(c, start);
            lemma_ws_end_bounds(c, n);
            let p = ws_end(c, n);
            if n != start && peek_at(c, p) == Some('(') {
                lemma_args_from_bounds(c, p + 1, Seq::empty());
                match call_at(c, j) {
                    Some(Some((call, e))) => {
                        assert(j < e <= c.len());
                    },
                    _ => {},
                }
            }
        }
    }
}

/// Reading calls from anywhere inside the input always finishes.
proof fn lemma_calls_from_total(c: Seq<char>, i: int, acc: Seq<CallModel>)
    requires
        0 <= i <= c.len(),
    ensures
        calls_from(c, i, acc) is Some,
    decreases c.len() - i,
{
    lemma_ws_end_bounds(c, i);
    let j = ws_end(c, i);
    if j < c.len() && c[j] != ']' {
        if c[j] == ',' {
            lemma_calls_from_total(c, j + 1, acc);
        } else {
            lemma_ws_end_bounds(c, j);
            let start = ws_end(c, j);
            lemma_ident_end_bounds(c, start);
            let n = ident_end(c, start);
            lemma_ws_end_bounds(c, n);
            let p = ws_end(c, n);
            if n != start && peek_at(c, p) == Some('(') {
                lemma_args_from_bounds(c, p + 1, Seq::empty());
                match call_at(c, j) {
                    Some(Some((call, e))) => {
                        assert(j < e <= c.len());
                        lemma_calls_from_total(c, e, acc.push(call));
                    },
                    _ => {},
                }
            }
        }
    }
}

/// The call-list reader is total: it finishes on every input, however malformed.
pub proof fn lemma_tool_calls_total(c: Seq<char>)
    ensures
        tool_calls(c) is Some,
{
    lemma_ws_end_bounds(c, 0);
    let j = ws_end(c, 0);
    let s = if peek_at(c, j) == Some('[') {
        j + 1
    } else {
        j
    };
    lemma_calls_from_total(c, s, Seq::empty());
}

/// The number of `(` in `c` from `i` on.
pub open spec fn parens_from(c: Seq<char>, i: int) -> nat
    decreases c.len() - i,
{
    if i < 0 || i >= c.len() {
        0
    } else {
        (if c[i] == '(' {
            1nat
        } else {
            0nat
        }) + parens_from(c, i + 1)
    }
}

proof fn lemma_parens_from_mono(c: Seq<char>, i: int, j: int)
    requires
        0 <= i <= j,
    ensures
        parens_from(c, j) <= parens_from(c, i),
        i <= j < c.len() && c[j] == '(' ==> parens_from(c, j + 1) + 1 <= parens_from(c, i),
    decreases j - i,
{
    if i < j {
        lemma_parens_from_mono(c, i + 1, j);
    }
}

proof fn lemma_calls_from_count(c: Seq<char>, i: int, acc: Seq<CallModel>)
    requires
        0 <= i <= c.len(),
    ensures
        calls_from(c, i, acc) matches Some(r) ==> r.len() <= acc.len() + parens_from(c, i),
    decreases c.len() - i,
{
    lemma_ws_end_bounds(c, i);
    let j = ws_end(c, i);
    lemma_parens_from_mono(c, i, j);
    if j < c.len() && c[j] != ']' {
        if c[j] == ',' {
            lemma_calls_from_count(c, j + 1, acc);
            lemma_parens_from_mono(c, i, j + 1);
        } else {
            lemma_ws_end_bounds(c, j);
            let start = ws_end(c, j);
            lemma_ident_end_bounds(c, start);
            let n = ident_end(c, start);
            lemma_ws_end_bounds(c, n);
            let p = ws_end(c, n);
            if n != start && peek_at(c, p) == Some('(') {
                lemma_args_from_bounds(c, p + 1, Seq::empty());
                match call_at(c, j) {
                    Some(Some((call, e))) => {
                        lemma_calls_from_count(c, e, acc.push(call));
                        lemma_parens_from_mono(c, i, p);
                        lemma_parens_from_mono(c, p + 1, e);
                    },
                    _ => {},
                }
            }
        }
    }
}

/// However malformed the input, the reader finds at most one call per `(` in it.
pub proof fn lemma_calls_at_most_parens(c: Seq<char>)
    ensures
        tool_calls(c).unwrap().len() <= parens_from(c, 0),
{
    lemma_tool_calls_total(c);
    lemma_ws_end_bounds(c, 0);
    let j = ws_end(c, 0);
    let s = if peek_at(c, j) == Some('[') {
        j + 1
    } else {
        j
    };
    lemma_calls_from_count(c, s, Seq::empty());
    lemma_parens_from_mono(c, 0, s);
}

// ---------------------------------------------------------------------------------------------
// Rendering a call list, and reading it back
// ---------------------------------------------------------------------------------------------

/// `v` as the inside of a single-quoted value: a backslash before each backslash and each
/// single quote.
pub open spec fn escape_quoted(v: Seq<char>) -> Seq<char>
    decreases v.len(),
{
    if v.len() == 0 {
        Seq::empty()
    } else if v[0] == '\\' || v[0] == '\'' {
        seq!['\\', v[0]] + escape_quoted(v.drop_first())
    } else {
        seq![v[0]] + escape_quoted(v.drop_first())
    }
}

/// `key='value'`, the value escaped.
pub open spec fn render_arg(a: ArgModel) -> Seq<char> {
    a.0 + seq!['=', '\''] + escape_quoted(a.1) + seq!['\'']
}

/// The arguments rendered and joined by `, `.
pub open spec fn render_args(args: Seq<ArgModel>) -> Seq<char>
    decreases args.len(),
{
    if args.len() == 0 {
        Seq::empty()
    } else if args.len() == 1 {
        render_arg(args[0])
    } else {
        render_arg(args[0]) + seq![',', ' '] + render_args(args.drop_first())
    }
}

/// `name(key='value', …)`.
pub open spec fn render_call(c: (Seq<char>, Seq<ArgModel>)) -> Seq<char> {
    c.0 + seq!['('] + render_args(c.1) + seq![')']
}

/// The calls rendered and joined by `, `.
pub open spec fn render_calls(calls: Seq<(Seq<char>, Seq<ArgModel>)>) -> Seq<char>
    decreases calls.len(),
{
    if calls.len() == 0 {
        Seq::empty()
    } else if calls.len() == 1 {
        render_call(calls[0])
    } else {
        render_call(calls[0]) + seq![',', ' '] + render_calls(calls.drop_first())
    }
}

/// The call list `[f(a='x'), g(b='y')]`.
pub open spec fn render_call_list(calls: Seq<(Seq<char>, Seq<ArgModel>)>) -> Seq<char> {
    seq!['['] + render_calls(calls) + seq![']']
}

/// A name or key that reads back as itself: non-empty, of identifier characters.
pub open spec fn ident_text(k: Seq<char>) -> bool {
    &&& k.len() > 0
    &&& forall|i: int| 0 <= i < k.len() ==> is_ident_char(#[trigger] k[i])
}

/// No identifier character is whitespace.
proof fn lemma_ident_char_not_ws(ch: char)
    requires
        is_ident_char(ch),
    ensures
        !is_ws(ch),
{
}

/// Every name and key of `calls` reads back as itself.
pub open spec fn renderable(calls: Seq<(Seq<char>, Seq<ArgModel>)>) -> bool {
    forall|i: int|
        0 <= i < calls.len() ==> ident_text(#[trigger] calls[i].0) && forall|j: int|
            0 <= j < calls[i].1.len() ==> ident_text(#[trigger] calls[i].1[j].0)
}

/// The names and arguments of calls read.
pub open spec fn names_args(ms: Seq<CallModel>) -> Seq<(Seq<char>, Seq<ArgModel>)> {
    ms.map_values(|m: CallModel| (m.0, m.1))
}

/// `x` stands in `c` at `i`.
pub open spec fn stands_at(c: Seq<char>, i: int, x: Seq<char>) -> bool {
    &&& 0 <= i
    &&& i + x.len() <= c.len()
    &&& forall|m: int| 0 <= m < x.len() ==> c[i + m] == #[trigger] x[m]
}

proof fn lemma_stands_split(c: Seq<char>, i: int, x: Seq<char>, y: Seq<char>)
    requires
        stands_at(c, i, x + y),
    ensures
        stands_at(c, i, x),
        stands_at(c, i + x.len(), y),
{
    assert forall|m: int| 0 <= m < x.len() implies c[i + m] == #[trigger] x[m] by {
        assert((x + y)[m] == x[m]);
    }
    assert forall|m: int| 0 <= m < y.len() implies c[i + x.len() + m] == #[trigger] y[m] by {
        assert((x + y)[x.len() + m] == y[m]);
    }
}

proof fn lemma_ident_run(c: Seq<char>, i: int, m: int)
    requires
        0 <= i <= m < c.len(),
        forall|x: int| i <= x < m ==> is_ident_char(#[trigger] c[x]),
        !is_ident_char(c[m]),
    ensures
        ident_end(c, i) == m,
    decreases m - i,
{
    if i < m {
        lemma_ident_run(c, i + 1, m);
    }
}

proof fn lemma_quoted_reads_back(c: Seq<char>, j: int, v: Seq<char>, acc: Seq<char>)
    requires
        stands_at(c, j, escape_quoted(v) + seq!['\'']),
    ensures
        quoted_from(c, j, '\'', acc) == (acc + v, j + escape_quoted(v).len() + 1),
    decreases v.len(),
{
    let e = escape_quoted(v);
    lemma_stands_split(c, j, e, seq!['\'']);
    if v.len() == 0 {
        assert(c[j + 0] == seq!['\''][0]);
        assert(acc + v =~= acc);
    } else {
        let rest = v.drop_first();
        let er = escape_quoted(rest);
        if v[0] == '\\' || v[0] == '\'' {
            assert(e == seq!['\\', v[0]] + er);
            assert(e + seq!['\''] =~= seq!['\\', v[0]] + (er + seq!['\'']));
            lemma_stands_split(c, j, seq!['\\', v[0]], er + seq!['\'']);
            assert(c[j + 0] == seq!['\\', v[0]][0]);
            assert(c[j + 1] == seq!['\\', v[0]][1]);
            lemma_quoted_reads_back(c, j + 2, rest, acc.push(v[0]));
            assert(acc.push(v[0]) + rest =~= acc + v);
        } else {
            assert(e == seq![v[0]] + er);
            assert(e + seq!['\''] =~= seq![v[0]] + (er + seq!['\'']));
            lemma_stands_split(c, j, seq![v[0]], er + seq!['\'']);
            assert(c[j + 0] == seq![v[0]][0]);
            lemma_quoted_reads_back(c, j + 1, rest, acc.push(v[0]));
            assert(acc.push(v[0]) + rest =~= acc + v);
        }
    }
}

/// `v` written as the inside of a single-quoted value with every escape the reader knows: a
/// backslash before each backslash and single quote, and line feed, tab and carriage return
/// written as backslash-`n`, backslash-`t` and backslash-`r`.
pub open spec fn escape_with_controls(v: Seq<char>) -> Seq<char>
    decreases v.len(),
{
    if v.len() == 0 {
        Seq::empty()
    } else {
        let e = if v[0] == '\n' {
            seq!['\\', 'n']
        } else if v[0] == '\t' {
            seq!['\\', 't']
        } else if v[0] == '\r' {
            seq!['\\', 'r']
        } else if v[0] == '\\' || v[0] == '\'' {
            seq!['\\', v[0]]
        } else {
            seq![v[0]]
        };
        e + escape_with_controls(v.drop_first())
    }
}

/// A quoted value reads back as the text it escapes: whatever `v` holds (line breaks, tabs,
/// backslashes, quotes), `'` + `escape_with_controls(v)` + `'` reads as exactly `v`, ending
/// just past the closing quote. So backslash-`t` reads as a tab, backslash-`n` as a line feed
/// and backslash-`r` as a carriage return.
pub proof fn lemma_quoted_escapes_read_back(c: Seq<char>, j: int, v: Seq<char>, acc: Seq<char>)
    requires
        stands_at(c, j, escape_with_controls(v) + seq!['\'']),
    ensures
        quoted_from(c, j, '\'', acc) == (acc + v, j + escape_with_controls(v).len() + 1),
    decreases v.len(),
{
    let e = escape_with_controls(v);
    lemma_stands_split(c, j, e, seq!['\'']);
    if v.len() == 0 {
        assert(c[j + 0] == seq!['\''][0]);
        assert(acc + v =~= acc);
    } else {
        let rest = v.drop_first();
        let er = escape_with_controls(rest);
        let x = v[0];
        if x == '\n' || x == '\t' || x == '\r' || x == '\\' || x == '\'' {
            let e0 = if x == '\n' {
                seq!['\\', 'n']
            } else if x == '\t' {
                seq!['\\', 't']
            } else if x == '\r' {
                seq!['\\', 'r']
            } else {
                seq!['\\', x]
            };
            assert(e == e0 + er);
            assert(e + seq!['\''] =~= e0 + (er + seq!['\'']));
            lemma_stands_split(c, j, e0, er + seq!['\'']);
            assert(c[j + 0] == e0[0]);
            assert(c[j + 1] == e0[1]);
            assert(unescape(c[j + 1]) == x);
            lemma_quoted_escapes_read_back(c, j + 2, rest, acc.push(x));
            assert(acc.push(x) + rest =~= acc + v);
        } else {
            assert(e == seq![x] + er);
            assert(e + seq!['\''] =~= seq![x] + (er + seq!['\'']));
            lemma_stands_split(c, j, seq![x], er + seq!['\'']);
            assert(c[j + 0] == seq![x][0]);
            lemma_quoted_escapes_read_back(c, j + 1, rest, acc.push(x));
            assert(acc.push(x) + rest =~= acc + v);
        }
    }
}

proof fn lemma_args_read_back(c: Seq<char>, i: int, args: Seq<ArgModel>, acc: Seq<ArgModel>)
    requires
        stands_at(c, i, render_args(args) + seq![')']),
        forall|j: int| 0 <= j < args.len() ==> ident_text(#[trigger] args[j].0),
    ensures
        args_from(c, i, acc) == Some((acc + args, i + render_args(args).len() + 1)),
    decreases args.len(),
{
    let r = render_args(args);
    lemma_stands_split(c, i, r, seq![')']);
    if args.len() == 0 {
        assert(c[i + 0] == seq![')'][0]);
        assert(acc + args =~= acc);
    } else {
        let a = args[0];
        let key = a.0;
        let esc = escape_quoted(a.1);
        let tail = if args.len() == 1 {
            seq![')']
        } else {
            seq![',', ' '] + render_args(args.drop_first()) + seq![')']
        };
        assert(r + seq![')'] =~= render_arg(a) + tail);
        lemma_stands_split(c, i, render_arg(a), tail);
        assert(render_arg(a) =~= key + (seq!['=', '\''] + esc + seq!['\'']));
        lemma_stands_split(c, i, key, seq!['=', '\''] + esc + seq!['\'']);
        let k = i + key.len();
        assert(seq!['=', '\''] + esc + seq!['\''] =~= seq!['=', '\''] + (esc + seq!['\'']));
        lemma_stands_split(c, k, seq!['=', '\''], esc + seq!['\'']);
        assert(c[k + 0] == seq!['=', '\''][0]);
        assert(c[k + 1] == seq!['=', '\''][1]);
        assert(c[i + 0] == key[0]);
        lemma_ident_char_not_ws(key[0]);
        assert(ws_end(c, i) == i);
        assert forall|x: int| i <= x < k implies is_ident_char(#[trigger] c[x]) by {
            assert(c[i + (x - i)] == key[x - i]);
        }
        lemma_ident_run(c, i, k);
        assert(ws_end(c, k) == k);
        assert(ws_end(c, k + 1) == k + 1);
        lemma_quoted_reads_back(c, k + 2, a.1, Seq::empty());
        assert(Seq::<char>::empty() + a.1 =~= a.1);
        let e = k + 2 + esc.len() + 1;
        assert(value_at(c, k + 1) == Some((a.1, e)));
        assert(c.subrange(i, k) =~= key);
        let acc1 = acc.push((c.subrange(i, k), a.1));
        assert(e == i + render_arg(a).len());
        if args.len() == 1 {
            assert(c[e + 0] == tail[0]);
            assert(ws_end(c, e) == e);
            assert(args_from(c, e, acc1) == Some((acc1, e + 1)));
            assert(acc1 =~= acc + args);
            assert(r == render_arg(a));
        } else {
            let rest = args.drop_first();
            assert(tail =~= seq![',', ' '] + (render_args(rest) + seq![')']));
            lemma_stands_split(c, e, seq![',', ' '], render_args(rest) + seq![')']);
            assert(c[e + 0] == seq![',', ' '][0]);
            assert(c[e + 1] == seq![',', ' '][1]);
            assert forall|j: int| 0 <= j < rest.len() implies ident_text(#[trigger] rest[j].0) by {
                assert(rest[j] == args[j + 1]);
            }
            lemma_args_read_back(c, e + 2, rest, acc1);
            let rr = render_args(rest);
            if rest.len() > 0 {
                lemma_stands_split(c, e + 2, rr, seq![')']);
                if rest.len() == 1 {
                    assert(rr == render_arg(rest[0]));
                    assert(render_arg(rest[0]) =~= rest[0].0 + (seq!['=', '\''] + escape_quoted(
                        rest[0].1,
                    ) + seq!['\'']));
                    lemma_stands_split(c, e + 2, rest[0].0, seq!['=', '\''] + escape_quoted(rest[0].1)
                        + seq!['\'']);
                } else {
                    assert(rr == render_arg(rest[0]) + seq![',', ' '] + render_args(rest.drop_first()));
                    assert(rr =~= rest[0].0 + (seq!['=', '\''] + escape_quoted(rest[0].1) + seq!['\'']
                        + seq![',', ' '] + render_args(rest.drop_first())));
                    lemma_stands_split(c, e + 2, rest[0].0, seq!['=', '\''] + escape_quoted(rest[0].1)
                        + seq!['\''] + seq![',', ' '] + render_args(rest.drop_first()));
                }
                assert(c[e + 2 + 0] == rest[0].0[0]);
            } else {
                assert(c[e + 2 + 0] == seq![')'][0]);
            }
            assert(ws_end(c, e + 2) == e + 2);
            assert(ws_end(c, e + 1) == e + 2);
            assert(ws_end(c, e) == e);
            assert(args_from(c, e + 1, acc1) == args_from(c, e + 2, acc1));
            assert(acc1 + rest =~= acc + args);
            assert(r =~= render_arg(a) + seq![',', ' '] + rr);
        }
    }
}

proof fn lemma_call_reads_back(c: Seq<char>, i: int, call: (Seq<char>, Seq<ArgModel>))
    requires
        stands_at(c, i, render_call(call)),
        ident_text(call.0),
        forall|j: int| 0 <= j < call.1.len() ==> ident_text(#[trigger] call.1[j].0),
    ensures
        call_at(c, i) matches Some(Some((m, e))) && m.0 == call.0 && m.1 == call.1 && e == i
            + render_call(call).len(),
{
    let name = call.0;
    let n = i + name.len();
    assert(render_call(call) =~= name + (seq!['('] + (render_args(call.1) + seq![')'])));
    lemma_stands_split(c, i, name, seq!['('] + (render_args(call.1) + seq![')']));
    lemma_stands_split(c, n, seq!['('], render_args(call.1) + seq![')']);
    assert(c[n + 0] == seq!['('][0]);
    assert(c[i + 0] == name[0]);
    assert(ws_end(c, i) == i);
    assert forall|x: int| i <= x < n implies is_ident_char(#[trigger] c[x]) by {
        assert(c[i + (x - i)] == name[x - i]);
    }
    lemma_ident_run(c, i, n);
    assert(ws_end(c, n) == n);
    lemma_args_read_back(c, n + 1, call.1, Seq::empty());
    assert(Seq::<ArgModel>::empty() + call.1 =~= call.1);
    assert(c.subrange(i, n) =~= name);
}

proof fn lemma_calls_read_back(
    c: Seq<char>,
    i: int,
    calls: Seq<(Seq<char>, Seq<ArgModel>)>,
    acc: Seq<CallModel>,
)
    requires
        stands_at(c, i, render_calls(calls) + seq![']']),
        renderable(calls),
    ensures
        calls_from(c, i, acc) matches Some(r) && names_args(r) == names_args(acc) + calls,
    decreases calls.len(),
{
    let r = render_calls(calls);
    lemma_stands_split(c, i, r, seq![']']);
    if calls.len() == 0 {
        assert(c[i + 0] == seq![']'][0]);
        assert(ws_end(c, i) == i);
        assert(calls_from(c, i, acc) == Some(acc));
        assert(names_args(acc) + calls =~= names_args(acc));
    } else {
        let call = calls[0];
        let tail = if calls.len() == 1 {
            seq![']']
        } else {
            seq![',', ' '] + render_calls(calls.drop_first()) + seq![']']
        };
        assert(r + seq![']'] =~= render_call(call) + tail);
        lemma_stands_split(c, i, render_call(call), tail);
        assert(render_call(call) =~= call.0 + (seq!['('] + render_args(call.1) + seq![')']));
        lemma_stands_split(c, i, call.0, seq!['('] + render_args(call.1) + seq![')']);
        assert(c[i + 0] == call.0[0]);
        assert(ws_end(c, i) == i);
        lemma_call_reads_back(c, i, call);
        let (m, e) = call_at(c, i)->Some_0->Some_0;
        let acc1 = acc.push(m);
        assert(names_args(acc1) =~= names_args(acc).push(call));
        assert(c[i] != ']' && c[i] != ',');
        assert(calls_from(c, i, acc) == calls_from(c, e, acc1));
        if calls.len() == 1 {
            assert(c[e + 0] == tail[0]);
            assert(ws_end(c, e) == e);
            assert(calls_from(c, e, acc1) == Some(acc1));
            assert(names_args(acc).push(call) =~= names_args(acc) + calls);
        } else {
            let rest = calls.drop_first();
            assert(tail =~= seq![',', ' '] + (render_calls(rest) + seq![']']));
            lemma_stands_split(c, e, seq![',', ' '], render_calls(rest) + seq![']']);
            assert(c[e + 0] == seq![',', ' '][0]);
            assert(c[e + 1] == seq![',', ' '][1]);
            assert(renderable(rest)) by {
                assert forall|j: int| 0 <= j < rest.len() implies ident_text(#[trigger] rest[j].0)
                    && forall|x: int|
                    0 <= x < rest[j].1.len() ==> ident_text(#[trigger] rest[j].1[x].0) by {
                    assert(rest[j] == calls[j + 1]);
                }
            }
            lemma_calls_read_back(c, e + 2, rest, acc1);
            let rr = render_calls(rest);
            lemma_stands_split(c, e + 2, rr, seq![']']);
            if rest.len() == 1 {
                assert(rr =~= rest[0].0 + (seq!['('] + render_args(rest[0].1) + seq![')']));
            } else {
                assert(rr =~= rest[0].0 + (seq!['('] + render_args(rest[0].1) + seq![')'] + seq![
                    ',',
                    ' ',
                ] + render_calls(rest.drop_first())));
            }
            assert(c[e + 2 + 0] == rr[0]);
            assert(rr[0] == rest[0].0[0]);
            assert(ws_end(c, e + 2) == e + 2);
            assert(ws_end(c, e + 1) == e + 2);
            assert(ws_end(c, e) == e);
            assert(calls_from(c, e + 1, acc1) == calls_from(c, e + 2, acc1));
            assert(names_args(acc).push(call) + rest =~= names_args(acc) + calls);
        }
    }
}

/// Reading a rendered call list gives the calls back: for calls whose names and keys are
/// identifiers, `[f(a='x'), g(b='y', …)]` with every value single-quoted and its backslashes
/// and single quotes escaped reads back as exactly those names and arguments, in order.
pub proof fn lemma_parse_inverts_render(calls: Seq<(Seq<char>, Seq<ArgModel>)>)
    requires
        renderable(calls),
    ensures
        tool_calls(render_call_list(calls)) matches Some(r) && names_args(r) == calls,
{
    let c = render_call_list(calls);
    assert(c =~= seq!['['] + (render_calls(calls) + seq![']']));
    lemma_stands_split(c, 0, seq!['['], render_calls(calls) + seq![']']);
    assert(c[0int] == seq!['['][0]);
    assert(ws_end(c, 0) == 0);
    lemma_calls_read_back(c, 1, calls, Seq::empty());
    assert(names_args(Seq::<CallModel>::empty()) + calls =~= calls);
}

// ---------------------------------------------------------------------------------------------
// Reading a JSON string literal back
// ---------------------------------------------------------------------------------------------

/// The value of a hexadecimal digit.
pub open spec fn hex_value(ch: char) -> Option<int> {
    if '0' <= ch <= '9' {
        Some(ch as int - 48)
    } else if 'a' <= ch <= 'f' {
        Some(ch as int - 87)
    } else if 'A' <= ch <= 'F' {
        Some(ch as int - 55)
    } else {
        None
    }
}

/// The character a two-character JSON escape `\e` stands for.
pub open spec fn json_unescape_char(e: char) -> Option<char> {
    if e == '"' {
        Some('"')
    } else if e == '\\' {
        Some('\\')
    } else if e == '/' {
        Some('/')
    } else if e == 'b' {
        Some('\u{8}')
    } else if e == 'f' {
        Some('\u{c}')
    } else if e == 'n' {
        Some('\n')
    } else if e == 'r' {
        Some('\r')
    } else if e == 't' {
        Some('\t')
    } else {
        None
    }
}

/// Reading the body of a JSON string literal (RFC 8259, without surrogate pairs) from `j`:
/// the text after `acc` and the position just past the closing quote; `None` where the
/// literal is ill-formed or unterminated.
pub open spec fn json_body_from(c: Seq<char>, j: int, acc: Seq<char>) -> Option<(Seq<char>, int)>
    decreases c.len() - j,
{
    if j < 0 || j >= c.len() {
        None
    } else if c[j] == '"' {
        Some((acc, j + 1))
    } else if c[j] == '\\' {
        if j + 1 >= c.len() {
            None
        } else if c[j + 1] == 'u' {
            if j + 6 > c.len() {
                None
            } else {
                match (hex_value(c[j + 2]), hex_value(c[j + 3]), hex_value(c[j + 4]), hex_value(c[j + 5])) {
                    (Some(a), Some(b), Some(d), Some(e)) => {
                        let v = 4096 * a + 256 * b + 16 * d + e;
                        if v < 0xD800 || v >= 0xE000 {
                            json_body_from(c, j + 6, acc.push(v as char))
                        } else {
                            None
                        }
                    },
                    _ => None,
                }
            }
        } else {
            match json_unescape_char(c[j + 1]) {
                Some(x) => json_body_from(c, j + 2, acc.push(x)),
                None => None,
            }
        }
    } else if (c[j] as u32) < 0x20 {
        None
    } else {
        json_body_from(c, j + 1, acc.push(c[j]))
    }
}

/// The JSON string literal that starts at `i`: its text and the position just past it.
pub open spec fn json_string_at(c: Seq<char>, i: int) -> Option<(Seq<char>, int)> {
    if 0 <= i < c.len() && c[i] == '"' {
        json_body_from(c, i + 1, Seq::empty())
    } else {
        None
    }
}

proof fn lemma_json_escape_append(a: Seq<char>, b: Seq<char>)
    ensures
        json_escape(a + b) == json_escape(a) + json_escape(b),
    decreases b.len(),
{
    if b.len() == 0 {
        assert(a + b =~= a);
        assert(json_escape(a) + Seq::<char>::empty() =~= json_escape(a));
    } else {
        assert((a + b).drop_last() =~= a + b.drop_last());
        assert((a + b).last() == b.last());
        lemma_json_escape_append(a, b.drop_last());
        assert(json_escape(a) + json_escape(b.drop_last()) + json_escape_char(b.last()) =~= json_escape(
            a,
        ) + (json_escape(b.drop_last()) + json_escape_char(b.last())));
    }
}

proof fn lemma_json_escape_first(s: Seq<char>)
    requires
        s.len() > 0,
    ensures
        json_escape(s) == json_escape_char(s[0]) + json_escape(s.drop_first()),
{
    let one = seq![s[0]];
    assert(s =~= one + s.drop_first());
    lemma_json_escape_append(one, s.drop_first());
    assert(one.drop_last() =~= Seq::<char>::empty());
    assert(one.last() == s[0]);
    assert(json_escape(one) == json_escape(one.drop_last()) + json_escape_char(s[0]));
    assert(json_escape(Seq::<char>::empty()) == Seq::<char>::empty());
    assert(Seq::<char>::empty() + json_escape_char(s[0]) =~= json_escape_char(s[0]));
}

proof fn lemma_hex_digit_value(d: int)
    requires
        0 <= d < 16,
    ensures
        hex_value(hex_digit(d)) == Some(d),
{
}

proof fn lemma_escape_char_reads_back(c: Seq<char>, j: int, ch: char, acc: Seq<char>)
    requires
        stands_at(c, j, json_escape_char(ch)),
        j + json_escape_char(ch).len() < c.len(),
    ensures
        json_body_from(c, j, acc) == json_body_from(c, j + json_escape_char(ch).len(), acc.push(ch)),
{
    let e = json_escape_char(ch);
    assert(c[j + 0] == e[0]);
    if ch == '"' || ch == '\\' || ch == '\n' || ch == '\r' || ch == '\t' {
        assert(c[j + 1] == e[1]);
    } else if (ch as u32) < 0x20 {
        let v = ch as u32 as int;
        assert(c[j + 1] == e[1]);
        assert(c[j + 2] == e[2]);
        assert(c[j + 3] == e[3]);
        assert(c[j + 4] == e[4]);
        assert(c[j + 5] == e[5]);
        assert((v / 4096) % 16 == 0 && (v / 256) % 16 == 0 && 0 <= (v / 16) % 16 < 2);
        lemma_hex_digit_value(0);
        lemma_hex_digit_value((v / 16) % 16);
        lemma_hex_digit_value(v % 16);
        assert(16 * ((v / 16) % 16) + v % 16 == v);
        assert((v as char) == ch) by {
            lemma_char_code_int(ch, v);
        }
    }
}

proof fn lemma_char_code_int(c: char, v: int)
    requires
        c as u32 as int == v,
    ensures
        v as char == c,
{
}

proof fn lemma_escape_reads_back(c: Seq<char>, j: int, s: Seq<char>, acc: Seq<char>)
    requires
        stands_at(c, j, json_escape(s) + seq!['"']),
    ensures
        json_body_from(c, j, acc) == Some((acc + s, j + json_escape(s).len() + 1)),
    decreases s.len(),
{
    let e = json_escape(s);
    lemma_stands_split(c, j, e, seq!['"']);
    if s.len() == 0 {
        assert(c[j + 0] == seq!['"'][0]);
        assert(acc + s =~= acc);
    } else {
        lemma_json_escape_first(s);
        let e0 = json_escape_char(s[0]);
        let er = json_escape(s.drop_first());
        assert(e + seq!['"'] =~= e0 + (er + seq!['"']));
        lemma_stands_split(c, j, e0, er + seq!['"']);
        lemma_escape_char_reads_back(c, j, s[0], acc);
        lemma_escape_reads_back(c, j + e0.len(), s.drop_first(), acc.push(s[0]));
        assert(acc.push(s[0]) + s.drop_first() =~= acc + s);
    }
}

/// A JSON string literal reads back as its text: wherever `json_string(s)` stands in a text,
/// reading the JSON string there gives exactly `s` and ends just after the literal.
pub proof fn lemma_json_string_reads_back(c: Seq<char>, i: int, s: Seq<char>)
    requires
        stands_at(c, i, json_string(s)),
    ensures
        json_string_at(c, i) == Some((s, i + json_string(s).len())),
{
    assert(json_string(s) =~= seq!['"'] + (json_escape(s) + seq!['"']));
    lemma_stands_split(c, i, seq!['"'], json_escape(s) + seq!['"']);
    assert(c[i + 0] == seq!['"'][0]);
    lemma_escape_reads_back(c, i + 1, s, Seq::empty());
    assert(Seq::<char>::empty() + s =~= s);
}

/// A tool declaration made by [`Tool::new`] is the JSON object `{"name":…,"description":…,
/// "parameters":…}` whose name and description members read back as the name and the
/// description given, whatever characters they hold, and whose parameters member is an object
/// that starts with `"type":"object"`.
#[verifier::spinoff_prover]
pub proof fn lemma_tool_json_reads_back(name: Seq<char>, description: Seq<char>, ps: Seq<ParamModel>)
    ensures
        ({
            let t = tool_json(name, description, ps);
            let n: int = json_string(name).len() as int;
            let dl: int = json_string(description).len() as int;
            let d: int = 8 + n + 15;
            &&& t.subrange(0, 8) == "{\"name\":"@
            &&& json_string_at(t, 8) == Some((name, 8 + n))
            &&& t.subrange(8 + n, d) == ",\"description\":"@
            &&& json_string_at(t, d) == Some((description, d + dl))
            &&& t.subrange(d + dl, d + dl + 14) == ",\"parameters\":"@
            &&& t.subrange(d + dl + 14, t.len() - 1) == schema_json(ps)
            &&& t.subrange(d + dl + 14, d + dl + 30) == "{\"type\":\"object\""@
            &&& t.last() == '}'
        }),
{
    reveal_strlit("{\"name\":");
    reveal_strlit(",\"description\":");
    reveal_strlit(",\"parameters\":");
    let t = tool_json(name, description, ps);
    let a = "{\"name\":"@;
    let b = json_string(name);
    let m = ",\"description\":"@;
    let dd = json_string(description);
    let q = ",\"parameters\":"@;
    let sj = schema_json(ps);
    assert(a.len() == 8 && m.len() == 15 && q.len() == 14);
    let x5 = a + b + m + dd + q + sj;
    let x4 = a + b + m + dd + q;
    let x3 = a + b + m + dd;
    let x2 = a + b + m;
    let x1 = a + b;
    assert(t == x5 + seq!['}']);
    assert(stands_at(t, 0, t));
    lemma_stands_split(t, 0, x5, seq!['}']);
    lemma_stands_split(t, 0, x4, sj);
    lemma_stands_split(t, 0, x3, q);
    lemma_stands_split(t, 0, x2, dd);
    lemma_stands_split(t, 0, x1, m);
    lemma_stands_split(t, 0, a, b);
    lemma_stands_subrange(t, 0, a);
    lemma_json_string_reads_back(t, 8, name);
    lemma_stands_subrange(t, x1.len() as int, m);
    lemma_json_string_reads_back(t, x2.len() as int, description);
    lemma_stands_subrange(t, x3.len() as int, q);
    lemma_stands_subrange(t, x4.len() as int, sj);
    assert(t.last() == seq!['}'][0]);
    lemma_schema_json_head(ps);
    assert(t.subrange(x4.len() as int, x4.len() as int + 16) =~= sj.subrange(0, 16));
}

/// A parameters object starts with `{"type":"object"`.
proof fn lemma_schema_json_head(ps: Seq<ParamModel>)
    ensures
        schema_json(ps).len() >= 16,
        schema_json(ps).subrange(0, 16) == "{\"type\":\"object\""@,
{
    reveal_strlit("{\"type\":\"object\"");
    reveal_strlit("{\"type\":\"object\",\"properties\":{");
    let head = "{\"type\":\"object\",\"properties\":{"@;
    let rest = properties_json(ps) + "},\"required\":["@ + json_string_list(required_names(ps))
        + "]}"@;
    assert(schema_json(ps) =~= head + rest);
    assert((head + rest).subrange(0, 16) =~= "{\"type\":\"object\""@);
}

/// What stands at `i` is the subrange there.
proof fn lemma_stands_subrange(c: Seq<char>, i: int, x: Seq<char>)
    requires
        stands_at(c, i, x),
    ensures
        c.subrange(i, i + x.len()) == x,
{
    assert(c.subrange(i, i + x.len()) =~= x);
}

} // verus!

verus! {

// ---------------------------------------------------------------------------------------------
// The call-list parser
// ---------------------------------------------------------------------------------------------

/// The calls as plain text.
pub open spec fn calls_view(calls: Seq<ToolCall>) -> Seq<CallModel> {
    calls.map_values(|t: ToolCall| t@)
}

/// Parse the content between `<|tool_call_start|>` and `<|tool_call_end|>` into calls. Accepts a
/// Python-style list `[f(a=1), g(b='x')]` (the outer brackets are optional). Values may be quoted
/// strings (unescaped, quotes stripped), numbers/booleans, or brace/bracket-balanced literals
/// (kept verbatim). Every input is accepted: text that is not a call ends the reading
/// rather than making it spin, so malformed output gives the calls read up to it.
pub fn parse_tool_calls(s: &str) -> (calls: Vec<ToolCall>)
    ensures
        tool_calls(s@) is Some,
        calls_view(calls@) == tool_calls(s@).unwrap(),
{
    let chars = to_chars(s);
    let mut p = Parser { c: chars.as_slice(), i: 0 };
    let ghost c = p.c@;
    proof {
        lemma_tool_calls_total(c);
    }
    p.skip_ws();
    proof {
        lemma_ws_end_bounds(c, 0);
    }
    match p.peek() {
        Some(ch) => {
            if ch == '[' {
                p.i += 1;
            }
        },
        None => {},
    }
    let mut calls: Vec<ToolCall> = Vec::new();
    assert(calls_view(calls@) =~= Seq::<CallModel>::empty());
    loop
        invariant_except_break
            calls_from(c, p.i as int, calls_view(calls@)) == tool_calls(s@),
        invariant
            p.c@ == c,
            c == s@,
            p.i <= c.len(),
            tool_calls(s@) is Some,
        ensures
            calls_view(calls@) == tool_calls(s@).unwrap(),
        decreases c.len() - p.i,
    {
        let ghost i0 = p.i as int;
        let ghost acc = calls_view(calls@);
        p.skip_ws();
        proof {
            lemma_ws_end_bounds(c, i0);
        }
        let pk = p.peek();
        match pk {
            None => break,
            Some(ch) => {
                if ch == ']' {
                    break;
                } else if ch == ',' {
                    p.i += 1;
                } else {
                    let ghost j = p.i as int;
                    proof {
                        lemma_ws_end_bounds(c, j);
                        lemma_ident_end_bounds(c, j);
                        lemma_ws_end_bounds(c, ident_end(c, j));
                    }
                    match p.parse_call() {
                        Some(call) => {
                            calls.push(call);
                            assert(calls_view(calls@) =~= acc.push(call@));
                        },
                        None => break,
                    }
                }
            },
        }
    }
    calls
}

/// Cursor over the call-list characters.
struct Parser<'a> {
    c: &'a [char],
    i: usize,
}

impl<'a> Parser<'a> {
    fn peek(&self) -> (r: Option<char>)
        ensures
            r == peek_at(self.c@, self.i as int),
            self.c@.len() <= usize::MAX,
    {
        if self.i < self.c.len() {
            Some(self.c[self.i])
        } else {
            None
        }
    }

    fn skip_ws(&mut self)
        requires
            old(self).i <= old(self).c@.len(),
        ensures
            final(self).c == old(self).c,
            final(self).i == ws_end(old(self).c@, old(self).i as int),
    {
        let ghost i0 = self.i as int;
        while self.i < self.c.len() && is_whitespace(self.c[self.i])
            invariant
                self.c == old(self).c,
                i0 == old(self).i,
                i0 <= self.i <= self.c@.len(),
                ws_end(self.c@, self.i as int) == ws_end(self.c@, i0),
            decreases self.c@.len() - self.i,
        {
            self.i += 1;
        }
    }

    /// `name . name …` — an identifier, allowing dotted names and underscores.
    fn parse_ident(&mut self) -> (r: String)
        requires
            old(self).i <= old(self).c@.len(),
        ensures
            final(self).c == old(self).c,
            final(self).i == ident_end(old(self).c@, old(self).i as int),
            r@ == old(self).c@.subrange(old(self).i as int, final(self).i as int),
    {
        let start = self.i;
        while self.i < self.c.len() && (is_alphabetic(self.c[self.i]) || is_numeric(self.c[self.i])
            || self.c[self.i] == '_' || self.c[self.i] == '.')
            invariant
                self.c == old(self).c,
                start == old(self).i,
                start <= self.i <= self.c@.len(),
                ident_end(self.c@, self.i as int) == ident_end(self.c@, start as int),
            decreases self.c@.len() - self.i,
        {
            self.i += 1;
        }
        string_of(self.c, start, self.i)
    }

    /// `name(arg=value, …)` — one call. `None` if the next token is not `name(`. An argument
    /// that reads as nothing (a `]` or `}` where it should start) ends the call there.
    fn parse_call(&mut self) -> (r: Option<ToolCall>)
        requires
            old(self).i <= old(self).c@.len(),
        ensures
            call_at(old(self).c@, old(self).i as int) is Some,
            final(self).c == old(self).c,
            final(self).i <= final(self).c@.len(),
            r is Some ==> final(self).i > old(self).i,
            match (r, call_at(old(self).c@, old(self).i as int).unwrap()) {
                (None, None) => true,
                (Some(t), Some((m, e))) => t@ == m && final(self).i == e,
                _ => false,
            },
    {
        let ghost c = self.c@;
        let ghost i0 = self.i as int;
        proof {
            lemma_ws_end_bounds(c, i0);
        }
        self.skip_ws();
        let start = self.i;
        proof {
            lemma_ident_end_bounds(c, start as int);
        }
        let name = self.parse_ident();
        proof {
            lemma_ws_end_bounds(c, self.i as int);
        }
        self.skip_ws();
        let open_paren = match self.peek() {
            Some(ch) => ch == '(',
            None => false,
        };
        if name.as_str().is_empty() || !open_paren {
            return None;
        }
        self.i += 1;
        let mut args: Vec<(String, String)> = Vec::new();
        assert(args_view(args@) =~= Seq::<ArgModel>::empty());
        let ghost p1 = self.i as int;
        proof {
            lemma_args_from_bounds(c, p1, Seq::empty());
        }
        loop
            invariant_except_break
                args_from(c, self.i as int, args_view(args@)) == args_from(c, p1, Seq::empty()),
            invariant
                self.c@ == c,
                self.c == old(self).c,
                start <= self.i <= c.len(),
                old(self).i <= start < p1 <= self.i,
                args_from(c, p1, Seq::empty()) is Some,
            ensures
                args_from(c, p1, Seq::empty()) == Some((args_view(args@), self.i as int)),
            decreases c.len() - self.i,
        {
            let ghost i1 = self.i as int;
            let ghost acc = args_view(args@);
            proof {
                lemma_ws_end_bounds(c, i1);
            }
            self.skip_ws();
            let pk = self.peek();
            match pk {
                None => break,
                Some(ch) => {
                    if ch == ')' {
                        self.i += 1;
                        break;
                    } else if ch == ',' {
                        self.i += 1;
                        continue;
                    }
                },
            }
            let j = self.i;
            proof {
                lemma_ident_end_bounds(c, j as int);
            }
            let key = self.parse_ident();
            proof {
                lemma_ws_end_bounds(c, self.i as int);
            }
            self.skip_ws();
            match self.peek() {
                Some(ch) => {
                    if ch == '=' {
                        self.i += 1;
                    }
                },
                None => {},
            }
            proof {
                lemma_value_at_bounds(c, self.i as int);
            }
            let val = self.parse_value();
            if self.i <= j {
                // Nothing was read: stop rather than spin.
                self.i = j;
                break;
            }
            let ghost kv = (key@, val@);
            args.push((key, val));
            assert(args_view(args@) =~= acc.push(kv));
        }
        let raw = trimmed_string_of(self.c, start, self.i);
        let call = ToolCall { name, args, raw };
        assert(call@ == call_at(c, i0).unwrap().unwrap().0);
        Some(call)
    }

    /// A single argument value: quoted string, balanced `{…}`/`[…]`, or a bare token.
    fn parse_value(&mut self) -> (r: String)
        requires
            old(self).i <= old(self).c@.len(),
        ensures
            final(self).c == old(self).c,
            value_at(old(self).c@, old(self).i as int) is Some,
            (r@, final(self).i as int) == value_at(old(self).c@, old(self).i as int).unwrap(),
    {
        let ghost c = self.c@;
        proof {
            lemma_ws_end_bounds(c, self.i as int);
            lemma_value_at_bounds(c, self.i as int);
        }
        self.skip_ws();
        match self.peek() {
            Some('\'') | Some('"') => self.parse_quoted(),
            Some('{') => self.parse_balanced('{', '}'),
            Some('[') => self.parse_balanced('[', ']'),
            _ => self.parse_bare(),
        }
    }

    /// A `'…'` / `"…"` string: quotes stripped, `\n`/`\t`/`\r`/`\\`/`\'`/`\"` unescaped.
    fn parse_quoted(&mut self) -> (r: String)
        requires
            old(self).i < old(self).c@.len(),
        ensures
            final(self).c == old(self).c,
            (r@, final(self).i as int) == quoted_from(
                old(self).c@,
                old(self).i + 1,
                old(self).c@[old(self).i as int],
                Seq::empty(),
            ),
    {
        let ghost c = self.c@;
        let quote = self.c[self.i];
        self.i += 1;
        let mut out = String::new();
        loop
            invariant_except_break
                quoted_from(c, self.i as int, quote, out@) == quoted_from(
                    c,
                    old(self).i + 1,
                    quote,
                    Seq::empty(),
                ),
            invariant
                self.c@ == c,
                self.c == old(self).c,
                quote == c[old(self).i as int],
                self.i <= c.len(),
            ensures
                (out@, self.i as int) == quoted_from(c, old(self).i + 1, quote, Seq::empty()),
            decreases c.len() - self.i,
        {
            if self.i >= self.c.len() {
                break;
            }
            let ch = self.c[self.i];
            self.i += 1;
            if ch == '\\' {
                if self.i < self.c.len() {
                    let esc = self.c[self.i];
                    self.i += 1;
                    out.push(
                        if esc == 'n' {
                            '\n'
                        } else if esc == 't' {
                            '\t'
                        } else if esc == 'r' {
                            '\r'
                        } else {
                            esc
                        },
                    );
                }
            } else if ch == quote {
                break;
            } else {
                out.push(ch);
            }
        }
        out
    }

    /// A `{…}` / `[…]` literal kept verbatim (including the brackets). String contents are
    /// skipped so a quoted bracket does not throw off the depth count. An unclosed literal
    /// runs to the end of the input (also when it ends in a backslash inside a string).
    fn parse_balanced(&mut self, open: char, close: char) -> (r: String)
        requires
            old(self).i < old(self).c@.len(),
            old(self).c@[old(self).i as int] == open,
            open != '\'' && open != '"' && open != close,
        ensures
            final(self).c == old(self).c,
            final(self).i == at_most_len(
                old(self).c@,
                balanced_from(old(self).c@, old(self).i as int, open, close, 0, None),
            ),
            r@ == old(self).c@.subrange(old(self).i as int, final(self).i as int),
    {
        let ghost c = self.c@;
        let start = self.i;
        let mut depth: usize = 0;
        let mut in_str: Option<char> = None;
        let ghost target = balanced_from(c, start as int, open, close, 0, None);
        loop
            invariant_except_break
                self.i == start ==> depth == 0 && in_str is None,
                self.i > start ==> depth >= 1,
                depth <= self.i,
                at_most_len(c, balanced_from(c, self.i as int, open, close, depth as int, in_str))
                    == at_most_len(c, target),
            invariant
                self.c@ == c,
                self.c == old(self).c,
                start == old(self).i,
                start <= self.i <= c.len(),
                c[start as int] == open,
                open != '\'' && open != '"' && open != close,
                target == balanced_from(c, start as int, open, close, 0, None),
            ensures
                self.i == at_most_len(c, target),
            decreases c.len() + 1 - self.i,
        {
            proof {
                lemma_balanced_from_bounds(c, self.i as int, open, close, depth as int, in_str);
            }
            if self.i >= self.c.len() {
                break;
            }
            let ch = self.c[self.i];
            self.i += 1;
            match in_str {
                Some(q) => {
                    if ch == '\\' {
                        if self.i < self.c.len() {
                            proof {
                                lemma_balanced_from_bounds(
                                    c,
                                    self.i + 1,
                                    open,
                                    close,
                                    depth as int,
                                    in_str,
                                );
                            }
                            self.i += 1;
                        } else {
                            proof {
                                assert(balanced_from(c, self.i + 1, open, close, depth as int, in_str)
                                    == self.i + 1);
                                assert(balanced_from(c, self.i as int, open, close, depth as int, in_str)
                                    == self.i);
                            }
                        }
                    } else if ch == q {
                        in_str = None;
                    }
                },
                None => {
                    if ch == '\'' || ch == '"' {
                        in_str = Some(ch);
                    } else if ch == open {
                        depth += 1;
                    } else if ch == close {
                        depth -= 1;
                        if depth == 0 {
                            break;
                        }
                    }
                },
            }
        }
        string_of(self.c, start, self.i)
    }

    /// A bare token (number, bool, unquoted word): up to the next `,`/`)`/`]`/`}`, trimmed.
    fn parse_bare(&mut self) -> (r: String)
        requires
            old(self).i <= old(self).c@.len(),
        ensures
            final(self).c == old(self).c,
            final(self).i == bare_end(old(self).c@, old(self).i as int),
            r@ == trim(old(self).c@.subrange(old(self).i as int, final(self).i as int)),
    {
        let start = self.i;
        while self.i < self.c.len() && !(self.c[self.i] == ',' || self.c[self.i] == ')'
            || self.c[self.i] == ']' || self.c[self.i] == '}')
            invariant
                self.c == old(self).c,
                start == old(self).i,
                start <= self.i <= self.c@.len(),
                bare_end(self.c@, self.i as int) == bare_end(self.c@, start as int),
            decreases self.c@.len() - self.i,
        {
            self.i += 1;
        }
        trimmed_string_of(self.c, start, self.i)
    }
}

} // verus!

verus! {

// ---------------------------------------------------------------------------------------------
// The system turn with its tool list
// ---------------------------------------------------------------------------------------------

/// The tool declarations, separated by `, `.
pub open spec fn tools_list(schemas: Seq<Seq<char>>) -> Seq<char>
    decreases schemas.len(),
{
    if schemas.len() == 0 {
        Seq::empty()
    } else if schemas.len() == 1 {
        schemas[0]
    } else {
        tools_list(schemas.drop_last()) + ", "@ + schemas.last()
    }
}

/// The system turn holding `message`, preceded by `List of tools: [..]` and a blank line
/// when there are tools.
pub open spec fn system_turn_spec(message: Seq<char>, schemas: Seq<Seq<char>>) -> Seq<char> {
    "<|im_start|>system\n"@ + (if schemas.len() == 0 {
        Seq::empty()
    } else {
        "List of tools: ["@ + tools_list(schemas) + "]\n\n"@
    }) + message + "<|im_end|>\n"@
}

/// The tool names and the tool declarations differ in number.
#[derive(Debug, PartialEq, Eq)]
pub struct ToolListMismatch;

/// A tool that answers nothing: only its declaration is used.
fn no_result(_call: &ToolCall) -> (r: String)
    ensures
        r@ == Seq::<char>::empty(),
{
    String::new()
}

/// Render the system turn advertising the tools named `tool_names`, declared by
/// `tool_schemas` (one declaration per name, in order), before `message`.
pub fn render_system_turn(message: &str, tool_names: &[String], tool_schemas: &[String]) -> (r: Result<
    String,
    ToolListMismatch,
>)
    ensures
        match r {
            Ok(s) => tool_names@.len() == tool_schemas@.len() && s@ == system_turn_spec(
                message@,
                tool_schemas@.map_values(|t: String| t@),
            ),
            Err(_) => tool_names@.len() != tool_schemas@.len(),
        },
{
    if tool_names.len() != tool_schemas.len() {
        return Err(ToolListMismatch);
    }
    let ghost sv = tool_schemas@.map_values(|t: String| t@);
    let mut block = String::from_str("<|im_start|>system\n");
    let ghost head = block@;
    if tool_names.len() > 0 {
        block.append("List of tools: [");
        let ghost open = block@;
        let mut i: usize = 0;
        while i < tool_names.len()
            invariant
                sv == tool_schemas@.map_values(|t: String| t@),
                tool_names@.len() == tool_schemas@.len(),
                i <= tool_names@.len(),
                block@ == open + tools_list(sv.take(i as int)),
            decreases tool_names@.len() - i,
        {
            let tool = Tool::raw(tool_names[i].as_str(), tool_schemas[i].as_str(), no_result);
            if i > 0 {
                block.append(", ");
            }
            block.append(tool.schema());
            proof {
                assert(sv.take(i + 1 as int).drop_last() =~= sv.take(i as int));
                if i == 0 {
                    assert(sv.take(1)[0] == sv[0]);
                }
            }
            i += 1;
            assert(block@ =~= open + tools_list(sv.take(i as int)));
        }
        assert(sv.take(i as int) =~= sv);
        block.append("]\n\n");
    }
    block.append(message);
    block.append("<|im_end|>\n");
    assert(block@ =~= system_turn_spec(message@, sv));
    Ok(block)
}

} // verus!
