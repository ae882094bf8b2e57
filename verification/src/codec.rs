//! Storage codec: encodes the collection to a structured, human-readable
//! text document and decodes such documents back. The format is a JSON
//! document: an array of project objects, each with a `name` string and a
//! `tasks` array of task objects carrying `id`, `description` and
//! `completed`, indented with two spaces per level. Empty input decodes to
//! the empty collection; any other input that does not have this shape is
//! a [`MalformedDataError`].

use vstd::prelude::*;

use crate::model::{Collection, Project, ProjectV, Task, TaskV};

verus! {

/// The stored document exists but does not have the expected shape.
#[derive(Debug, PartialEq, Eq, Clone, Copy)]
pub struct MalformedDataError;

// ---------------------------------------------------------------------------
// The encoded form, as a mathematical function of the collection.
// ---------------------------------------------------------------------------

/// `n` space characters.
pub open spec fn spaces(n: nat) -> Seq<u8> {
    Seq::new(n, |k: int| 0x20u8)
}

/// A line break followed by `n` spaces of indentation.
pub open spec fn nl_ind(n: nat) -> Seq<u8> {
    seq![0x0Au8] + spaces(n)
}

/// The hexadecimal digit for `n` (lower case), for `n < 16`.
pub open spec fn hex_digit(n: int) -> u8 {
    if n < 10 {
        (0x30 + n) as u8
    } else {
        (0x57 + n) as u8
    }
}

/// How one byte of a string is written: `"` and `\` get a backslash escape,
/// control bytes are written as `\u00` plus two hex digits, and every other
/// byte stands for itself.
pub open spec fn esc_byte(b: u8) -> Seq<u8> {
    if b == 0x22 {
        seq![0x5Cu8, 0x22]
    } else if b == 0x5C {
        seq![0x5Cu8, 0x5C]
    } else if b < 0x20 {
        seq![0x5Cu8, 0x75, 0x30, 0x30, hex_digit(b as int / 16), hex_digit(b as int % 16)]
    } else {
        seq![b]
    }
}

/// The body of a string: every byte escaped as needed.
pub open spec fn enc_str_bytes(s: Seq<u8>) -> Seq<u8>
    decreases s.len(),
{
    if s.len() == 0 {
        Seq::empty()
    } else {
        esc_byte(s[0]) + enc_str_bytes(s.skip(1))
    }
}

/// A string: its escaped body between double quotes.
pub open spec fn enc_string(s: Seq<u8>) -> Seq<u8> {
    seq![0x22u8] + enc_str_bytes(s) + seq![0x22u8]
}

/// The decimal digits of `n`, most significant first.
pub open spec fn dec_digits(n: int) -> Seq<u8>
    recommends
        n >= 0,
    decreases n,
{
    if n < 10 {
        seq![(0x30 + n) as u8]
    } else {
        dec_digits(n / 10) + seq![(0x30 + n % 10) as u8]
    }
}

/// `true` or `false`.
pub open spec fn enc_bool(b: bool) -> Seq<u8> {
    if b {
        seq![0x74u8, 0x72, 0x75, 0x65]
    } else {
        seq![0x66u8, 0x61, 0x6C, 0x73, 0x65]
    }
}

/// The quoted key `"id"`.
pub open spec fn lit_id() -> Seq<u8> {
    seq![0x22u8, 0x69, 0x64, 0x22]
}

/// The quoted key `"description"`.
pub open spec fn lit_description() -> Seq<u8> {
    seq![0x22u8, 0x64, 0x65, 0x73, 0x63, 0x72, 0x69, 0x70, 0x74, 0x69, 0x6F, 0x6E, 0x22]
}

/// The quoted key `"completed"`.
pub open spec fn lit_completed() -> Seq<u8> {
    seq![0x22u8, 0x63, 0x6F, 0x6D, 0x70, 0x6C, 0x65, 0x74, 0x65, 0x64, 0x22]
}

/// The quoted key `"name"`.
pub open spec fn lit_name() -> Seq<u8> {
    seq![0x22u8, 0x6E, 0x61, 0x6D, 0x65, 0x22]
}

/// A key followed by a colon and one space.
pub open spec fn enc_key(lit: Seq<u8>) -> Seq<u8> {
    lit + seq![0x3Au8, 0x20]
}

/// One task object, with its fields indented eight spaces and its closing
/// brace indented six.
pub open spec fn enc_task(t: TaskV) -> Seq<u8> {
    seq![0x7Bu8] + nl_ind(8) + enc_key(lit_id()) + dec_digits(t.id as int) + seq![0x2Cu8] + nl_ind(
        8,
    ) + enc_key(lit_description()) + enc_string(t.description) + seq![0x2Cu8] + nl_ind(8) + enc_key(
        lit_completed(),
    ) + enc_bool(t.completed) + nl_ind(6) + seq![0x7Du8]
}

/// Every task after the first: a comma, a line break, the task.
pub open spec fn enc_tasks_rest(ts: Seq<TaskV>) -> Seq<u8>
    decreases ts.len(),
{
    if ts.len() == 0 {
        Seq::empty()
    } else {
        seq![0x2Cu8] + nl_ind(6) + enc_task(ts[0]) + enc_tasks_rest(ts.skip(1))
    }
}

/// The task array of a project.
pub open spec fn enc_tasks(ts: Seq<TaskV>) -> Seq<u8> {
    if ts.len() == 0 {
        seq![0x5Bu8, 0x5D]
    } else {
        seq![0x5Bu8] + nl_ind(6) + enc_task(ts[0]) + enc_tasks_rest(ts.skip(1)) + nl_ind(4)
            + seq![0x5Du8]
    }
}

/// One project object, with its fields indented four spaces and its closing
/// brace indented two.
pub open spec fn enc_project(p: ProjectV) -> Seq<u8> {
    seq![0x7Bu8] + nl_ind(4) + enc_key(lit_name()) + enc_string(p.name) + seq![0x2Cu8] + nl_ind(4)
        + enc_key(lit_tasks()) + enc_tasks(p.tasks) + nl_ind(2) + seq![0x7Du8]
}

/// The quoted key `"tasks"`.
pub open spec fn lit_tasks() -> Seq<u8> {
    seq![0x22u8, 0x74, 0x61, 0x73, 0x6B, 0x73, 0x22]
}

/// Every project after the first: a comma, a line break, the project.
pub open spec fn enc_projects_rest(c: Seq<ProjectV>) -> Seq<u8>
    decreases c.len(),
{
    if c.len() == 0 {
        Seq::empty()
    } else {
        seq![0x2Cu8] + nl_ind(2) + enc_project(c[0]) + enc_projects_rest(c.skip(1))
    }
}

/// The whole document: the array of all projects.
pub open spec fn spec_encode(c: Seq<ProjectV>) -> Seq<u8> {
    if c.len() == 0 {
        seq![0x5Bu8, 0x5D]
    } else {
        seq![0x5Bu8] + nl_ind(2) + enc_project(c[0]) + enc_projects_rest(c.skip(1)) + nl_ind(0)
            + seq![0x5Du8]
    }
}

// ---------------------------------------------------------------------------
// The accepted form, as a mathematical parser over the input bytes. The
// parser is tolerant of whitespace between tokens and of every string
// escape of the document format, so documents written by hand or by other
// tools in the same shape are accepted; the keys of each object come in
// the fixed order the encoder writes.
// ---------------------------------------------------------------------------

/// Whitespace between tokens.
pub open spec fn is_ws(b: u8) -> bool {
    b == 0x20 || b == 0x0A || b == 0x0D || b == 0x09
}

/// A decimal digit.
pub open spec fn is_digit(b: u8) -> bool {
    0x30 <= b <= 0x39
}

/// A hexadecimal digit, either case.
pub open spec fn is_hex(b: u8) -> bool {
    is_digit(b) || 0x61 <= b <= 0x66 || 0x41 <= b <= 0x46
}

/// The value of a hexadecimal digit.
pub open spec fn hex_val(b: u8) -> int {
    if is_digit(b) {
        b - 0x30
    } else if 0x61 <= b <= 0x66 {
        b - 0x57
    } else {
        b - 0x37
    }
}

/// The UTF-8 bytes of the code point `cp`, for `cp < 0x10000`.
pub open spec fn utf8_enc(cp: int) -> Seq<u8> {
    if cp < 0x80 {
        seq![cp as u8]
    } else if cp < 0x800 {
        seq![(0xC0 + cp / 64) as u8, (0x80 + cp % 64) as u8]
    } else {
        seq![(0xE0 + cp / 4096) as u8, (0x80 + (cp / 64) % 64) as u8, (0x80 + cp % 64) as u8]
    }
}

/// The first position at or after `i` that does not hold whitespace.
pub open spec fn skip_ws(s: Seq<u8>, i: int) -> int
    decreases s.len() - i,
{
    if 0 <= i && i < s.len() && is_ws(s[i]) {
        skip_ws(s, i + 1)
    } else {
        i
    }
}

/// The position after the literal `tok`, if it stands at `i`.
pub open spec fn parse_exact(s: Seq<u8>, i: int, tok: Seq<u8>) -> Option<int> {
    if 0 <= i && i + tok.len() <= s.len() && s.subrange(i, i + tok.len()) == tok {
        Some(i + tok.len())
    } else {
        None
    }
}

/// Consume decimal digits, extending the value `acc`; the number must stay
/// within `u32`.
pub open spec fn parse_digits(s: Seq<u8>, i: int, acc: int) -> Option<(u32, int)>
    decreases s.len() - i,
{
    if 0 <= i && i < s.len() && is_digit(s[i]) {
        let v = acc * 10 + (s[i] - 0x30);
        if v <= u32::MAX {
            parse_digits(s, i + 1, v)
        } else {
            None
        }
    } else {
        Some((acc as u32, i))
    }
}

/// A number: one or more decimal digits.
pub open spec fn parse_u32(s: Seq<u8>, i: int) -> Option<(u32, int)> {
    if 0 <= i && i < s.len() && is_digit(s[i]) {
        parse_digits(s, i, 0)
    } else {
        None
    }
}

/// The body of a string up to and over its closing quote, prepended by the
/// bytes already read in `acc`.
pub open spec fn parse_str_chars(s: Seq<u8>, i: int, acc: Seq<u8>) -> Option<(Seq<u8>, int)>
    decreases s.len() - i,
{
    if !(0 <= i && i < s.len()) {
        None
    } else {
        let b = s[i];
        if b == 0x22 {
            Some((acc, i + 1))
        } else if b == 0x5C {
            if i + 1 >= s.len() {
                None
            } else {
                let e = s[i + 1];
                if e == 0x22 || e == 0x5C || e == 0x2F {
                    parse_str_chars(s, i + 2, acc.push(e))
                } else if e == 0x62 {
                    parse_str_chars(s, i + 2, acc.push(0x08))
                } else if e == 0x66 {
                    parse_str_chars(s, i + 2, acc.push(0x0C))
                } else if e == 0x6E {
                    parse_str_chars(s, i + 2, acc.push(0x0A))
                } else if e == 0x72 {
                    parse_str_chars(s, i + 2, acc.push(0x0D))
                } else if e == 0x74 {
                    parse_str_chars(s, i + 2, acc.push(0x09))
                } else if e == 0x75 {
                    if i + 6 <= s.len() && is_hex(s[i + 2]) && is_hex(s[i + 3]) && is_hex(s[i + 4])
                        && is_hex(s[i + 5]) {
                        let cp = hex_val(s[i + 2]) * 4096 + hex_val(s[i + 3]) * 256 + hex_val(
                            s[i + 4],
                        ) * 16 + hex_val(s[i + 5]);
                        if 0xD800 <= cp < 0xE000 {
                            None
                        } else {
                            parse_str_chars(s, i + 6, acc + utf8_enc(cp))
                        }
                    } else {
                        None
                    }
                } else {
                    None
                }
            }
        } else if b < 0x20 {
            None
        } else {
            parse_str_chars(s, i + 1, acc.push(b))
        }
    }
}

/// A quoted string.
pub open spec fn parse_string(s: Seq<u8>, i: int) -> Option<(Seq<u8>, int)> {
    if 0 <= i && i < s.len() && s[i] == 0x22 {
        parse_str_chars(s, i + 1, Seq::empty())
    } else {
        None
    }
}

/// `true` or `false`.
pub open spec fn parse_bool(s: Seq<u8>, i: int) -> Option<(bool, int)> {
    match parse_exact(s, i, enc_bool(true)) {
        Some(j) => Some((true, j)),
        None => match parse_exact(s, i, enc_bool(false)) {
            Some(j) => Some((false, j)),
            None => None,
        },
    }
}

/// A quoted key followed by a colon; whitespace may stand around the colon.
/// The result is the position of the value.
pub open spec fn parse_key(s: Seq<u8>, i: int, lit: Seq<u8>) -> Option<int> {
    match parse_exact(s, i, lit) {
        None => None,
        Some(j) => {
            let j2 = skip_ws(s, j);
            if j2 < s.len() && s[j2] == 0x3A {
                Some(skip_ws(s, j2 + 1))
            } else {
                None
            }
        },
    }
}

/// A task object: `id`, `description` and `completed`, in this order.
pub open spec fn parse_task(s: Seq<u8>, i: int) -> Option<(TaskV, int)> {
    if !(0 <= i && i < s.len() && s[i] == 0x7B) {
        None
    } else {
        match parse_key(s, skip_ws(s, i + 1), lit_id()) {
            None => None,
            Some(j1) => match parse_u32(s, j1) {
                None => None,
                Some((id, j2)) => {
                    let j3 = skip_ws(s, j2);
                    if !(j3 < s.len() && s[j3] == 0x2C) {
                        None
                    } else {
                        match parse_key(s, skip_ws(s, j3 + 1), lit_description()) {
                            None => None,
                            Some(j4) => match parse_string(s, j4) {
                                None => None,
                                Some((desc, j5)) => {
                                    let j6 = skip_ws(s, j5);
                                    if !(j6 < s.len() && s[j6] == 0x2C) {
                                        None
                                    } else {
                                        match parse_key(s, skip_ws(s, j6 + 1), lit_completed()) {
                                            None => None,
                                            Some(j7) => match parse_bool(s, j7) {
                                                None => None,
                                                Some((done, j8)) => {
                                                    let j9 = skip_ws(s, j8);
                                                    if j9 < s.len() && s[j9] == 0x7D {
                                                        Some(
                                                            (
                                                                TaskV {
                                                                    id: id,
                                                                    description: desc,
                                                                    completed: done,
                                                                },
                                                                j9 + 1,
                                                            ),
                                                        )
                                                    } else {
                                                        None
                                                    }
                                                },
                                            },
                                        }
                                    }
                                },
                            },
                        }
                    }
                },
            },
        }
    }
}

/// After the first task of an array: either the closing bracket, or a comma
/// and a further task, repeatedly.
pub open spec fn parse_tasks_rest(s: Seq<u8>, i: int, acc: Seq<TaskV>) -> Option<
    (Seq<TaskV>, int),
>
    decreases s.len() - i,
    via parse_tasks_rest_dec
{
    let j = skip_ws(s, i);
    if j < s.len() && s[j] == 0x5D {
        Some((acc, j + 1))
    } else if j < s.len() && s[j] == 0x2C {
        match parse_task(s, skip_ws(s, j + 1)) {
            None => None,
            Some((t, j2)) => parse_tasks_rest(s, j2, acc.push(t)),
        }
    } else {
        None
    }
}

#[via_fn]
proof fn parse_tasks_rest_dec(s: Seq<u8>, i: int, acc: Seq<TaskV>) {
    let j = skip_ws(s, i);
    lemma_skip_ws_bounds(s, i);
    if j < s.len() && s[j] == 0x2C {
        lemma_skip_ws_bounds(s, j + 1);
        lemma_parse_task_bounds(s, skip_ws(s, j + 1));
    }
}

/// A task array.
pub open spec fn parse_tasks(s: Seq<u8>, i: int) -> Option<(Seq<TaskV>, int)> {
    if !(0 <= i && i < s.len() && s[i] == 0x5B) {
        None
    } else {
        let j = skip_ws(s, i + 1);
        if j < s.len() && s[j] == 0x5D {
            Some((Seq::empty(), j + 1))
        } else {
            match parse_task(s, j) {
                None => None,
                Some((t, j2)) => parse_tasks_rest(s, j2, seq![t]),
            }
        }
    }
}

/// A project object: `name` and `tasks`, in this order.
pub open spec fn parse_project(s: Seq<u8>, i: int) -> Option<(ProjectV, int)> {
    if !(0 <= i && i < s.len() && s[i] == 0x7B) {
        None
    } else {
        match parse_key(s, skip_ws(s, i + 1), lit_name()) {
            None => None,
            Some(j1) => match parse_string(s, j1) {
                None => None,
                Some((name, j2)) => {
                    let j3 = skip_ws(s, j2);
                    if !(j3 < s.len() && s[j3] == 0x2C) {
                        None
                    } else {
                        match parse_key(s, skip_ws(s, j3 + 1), lit_tasks()) {
                            None => None,
                            Some(j4) => match parse_tasks(s, j4) {
                                None => None,
                                Some((ts, j5)) => {
                                    let j6 = skip_ws(s, j5);
                                    if j6 < s.len() && s[j6] == 0x7D {
                                        Some((ProjectV { name: name, tasks: ts }, j6 + 1))
                                    } else {
                                        None
                                    }
                                },
                            },
                        }
                    }
                },
            },
        }
    }
}

/// After the first project of the document array.
pub open spec fn parse_projects_rest(s: Seq<u8>, i: int, acc: Seq<ProjectV>) -> Option<
    (Seq<ProjectV>, int),
>
    decreases s.len() - i,
    via parse_projects_rest_dec
{
    let j = skip_ws(s, i);
    if j < s.len() && s[j] == 0x5D {
        Some((acc, j + 1))
    } else if j < s.len() && s[j] == 0x2C {
        match parse_project(s, skip_ws(s, j + 1)) {
            None => None,
            Some((p, j2)) => parse_projects_rest(s, j2, acc.push(p)),
        }
    } else {
        None
    }
}

#[via_fn]
proof fn parse_projects_rest_dec(s: Seq<u8>, i: int, acc: Seq<ProjectV>) {
    let j = skip_ws(s, i);
    lemma_skip_ws_bounds(s, i);
    if j < s.len() && s[j] == 0x2C {
        lemma_skip_ws_bounds(s, j + 1);
        lemma_parse_project_bounds(s, skip_ws(s, j + 1));
    }
}

/// The document array of projects.
pub open spec fn parse_projects(s: Seq<u8>, i: int) -> Option<(Seq<ProjectV>, int)> {
    if !(0 <= i && i < s.len() && s[i] == 0x5B) {
        None
    } else {
        let j = skip_ws(s, i + 1);
        if j < s.len() && s[j] == 0x5D {
            Some((Seq::empty(), j + 1))
        } else {
            match parse_project(s, j) {
                None => None,
                Some((p, j2)) => parse_projects_rest(s, j2, seq![p]),
            }
        }
    }
}

/// What the decoder accepts: empty input is the empty collection; anything
/// else must be the document array, possibly surrounded by whitespace.
pub open spec fn spec_decode(s: Seq<u8>) -> Option<Seq<ProjectV>> {
    if s.len() == 0 {
        Some(Seq::empty())
    } else {
        match parse_projects(s, skip_ws(s, 0)) {
            None => None,
            Some((c, j)) => if skip_ws(s, j) == s.len() {
                Some(c)
            } else {
                None
            },
        }
    }
}

// ---------------------------------------------------------------------------
// Bounds of the parser: a successful parse moves forward and stays within
// the input.
// ---------------------------------------------------------------------------

proof fn lemma_skip_ws_bounds(s: Seq<u8>, i: int)
    ensures
        i <= skip_ws(s, i),
        0 <= i <= s.len() ==> skip_ws(s, i) <= s.len(),
    decreases s.len() - i,
{
    if 0 <= i && i < s.len() && is_ws(s[i]) {
        lemma_skip_ws_bounds(s, i + 1);
    }
}

proof fn lemma_parse_digits_bounds(s: Seq<u8>, i: int, acc: int)
    ensures
        parse_digits(s, i, acc) matches Some((v, j)) ==> i <= j && (i <= s.len() ==> j <= s.len()),
    decreases s.len() - i,
{
    if 0 <= i && i < s.len() && is_digit(s[i]) {
        let v = acc * 10 + (s[i] - 0x30);
        if v <= u32::MAX {
            lemma_parse_digits_bounds(s, i + 1, v);
        }
    }
}

proof fn lemma_parse_u32_bounds(s: Seq<u8>, i: int)
    ensures
        parse_u32(s, i) matches Some((v, j)) ==> 0 <= i < j <= s.len(),
{
    if 0 <= i && i < s.len() && is_digit(s[i]) {
        lemma_parse_digits_bounds(s, i + 1, s[i] - 0x30);
    }
}

proof fn lemma_parse_str_chars_bounds(s: Seq<u8>, i: int, acc: Seq<u8>)
    ensures
        parse_str_chars(s, i, acc) matches Some((x, j)) ==> 0 <= i < j <= s.len(),
    decreases s.len() - i,
{
    if 0 <= i && i < s.len() {
        let b = s[i];
        if b == 0x5C && i + 1 < s.len() {
            lemma_parse_str_chars_bounds(s, i + 2, acc.push(s[i + 1]));
            lemma_parse_str_chars_bounds(s, i + 2, acc.push(0x08));
            lemma_parse_str_chars_bounds(s, i + 2, acc.push(0x0C));
            lemma_parse_str_chars_bounds(s, i + 2, acc.push(0x0A));
            lemma_parse_str_chars_bounds(s, i + 2, acc.push(0x0D));
            lemma_parse_str_chars_bounds(s, i + 2, acc.push(0x09));
            if i + 6 <= s.len() && is_hex(s[i + 2]) && is_hex(s[i + 3]) && is_hex(s[i + 4])
                && is_hex(s[i + 5]) {
                let cp = hex_val(s[i + 2]) * 4096 + hex_val(s[i + 3]) * 256 + hex_val(s[i + 4])
                    * 16 + hex_val(s[i + 5]);
                lemma_parse_str_chars_bounds(s, i + 6, acc + utf8_enc(cp));
            }
        } else if b != 0x22 && b != 0x5C && b >= 0x20 {
            lemma_parse_str_chars_bounds(s, i + 1, acc.push(b));
        }
    }
}

proof fn lemma_parse_string_bounds(s: Seq<u8>, i: int)
    ensures
        parse_string(s, i) matches Some((x, j)) ==> 0 <= i < j <= s.len(),
{
    if 0 <= i && i < s.len() && s[i] == 0x22 {
        lemma_parse_str_chars_bounds(s, i + 1, Seq::empty());
    }
}

proof fn lemma_parse_key_bounds(s: Seq<u8>, i: int, lit: Seq<u8>)
    ensures
        parse_key(s, i, lit) matches Some(j) ==> 0 <= i && i <= j <= s.len(),
{
    match parse_exact(s, i, lit) {
        None => {},
        Some(j0) => {
            lemma_skip_ws_bounds(s, j0);
            let j2 = skip_ws(s, j0);
            if j2 < s.len() && s[j2] == 0x3A {
                lemma_skip_ws_bounds(s, j2 + 1);
            }
        },
    }
}

proof fn lemma_parse_bool_bounds(s: Seq<u8>, i: int)
    ensures
        parse_bool(s, i) matches Some((b, j)) ==> 0 <= i < j <= s.len(),
{
}

proof fn lemma_parse_task_bounds(s: Seq<u8>, i: int)
    ensures
        parse_task(s, i) matches Some((t, j)) ==> 0 <= i < j <= s.len(),
{
    if 0 <= i && i < s.len() && s[i] == 0x7B {
        lemma_skip_ws_bounds(s, i + 1);
        let k1 = skip_ws(s, i + 1);
        lemma_parse_key_bounds(s, k1, lit_id());
        match parse_key(s, k1, lit_id()) {
            None => {},
            Some(j1) => {
                lemma_parse_u32_bounds(s, j1);
                match parse_u32(s, j1) {
                    None => {},
                    Some((id, j2)) => {
                        lemma_skip_ws_bounds(s, j2);
                        let j3 = skip_ws(s, j2);
                        if j3 < s.len() && s[j3] == 0x2C {
                            lemma_skip_ws_bounds(s, j3 + 1);
                            let k2 = skip_ws(s, j3 + 1);
                            lemma_parse_key_bounds(s, k2, lit_description());
                            match parse_key(s, k2, lit_description()) {
                                None => {},
                                Some(j4) => {
                                    lemma_parse_string_bounds(s, j4);
                                    match parse_string(s, j4) {
                                        None => {},
                                        Some((desc, j5)) => {
                                            lemma_skip_ws_bounds(s, j5);
                                            let j6 = skip_ws(s, j5);
                                            if j6 < s.len() && s[j6] == 0x2C {
                                                lemma_skip_ws_bounds(s, j6 + 1);
                                                let k3 = skip_ws(s, j6 + 1);
                                                lemma_parse_key_bounds(s, k3, lit_completed());
                                                match parse_key(s, k3, lit_completed()) {
                                                    None => {},
                                                    Some(j7) => {
                                                        lemma_parse_bool_bounds(s, j7);
                                                        match parse_bool(s, j7) {
                                                            None => {},
                                                            Some((done, j8)) => {
                                                                lemma_skip_ws_bounds(s, j8);
                                                            },
                                                        }
                                                    },
                                                }
                                            }
                                        },
                                    }
                                },
                            }
                        }
                    },
                }
            },
        }
    }
}

proof fn lemma_parse_tasks_rest_bounds(s: Seq<u8>, i: int, acc: Seq<TaskV>)
    ensures
        parse_tasks_rest(s, i, acc) matches Some((x, j)) ==> i < j <= s.len(),
    decreases s.len() - i,
{
    let j = skip_ws(s, i);
    lemma_skip_ws_bounds(s, i);
    if j < s.len() && s[j] == 0x5D {
    } else if j < s.len() && s[j] == 0x2C {
        lemma_skip_ws_bounds(s, j + 1);
        let k = skip_ws(s, j + 1);
        lemma_parse_task_bounds(s, k);
        match parse_task(s, k) {
            None => {},
            Some((t, j2)) => {
                lemma_parse_tasks_rest_bounds(s, j2, acc.push(t));
            },
        }
    }
}

proof fn lemma_parse_tasks_bounds(s: Seq<u8>, i: int)
    ensures
        parse_tasks(s, i) matches Some((x, j)) ==> 0 <= i < j <= s.len(),
{
    if 0 <= i && i < s.len() && s[i] == 0x5B {
        lemma_skip_ws_bounds(s, i + 1);
        let j = skip_ws(s, i + 1);
        if j < s.len() && s[j] == 0x5D {
        } else {
            lemma_parse_task_bounds(s, j);
            match parse_task(s, j) {
                None => {},
                Some((t, j2)) => {
                    lemma_parse_tasks_rest_bounds(s, j2, seq![t]);
                },
            }
        }
    }
}

proof fn lemma_parse_project_bounds(s: Seq<u8>, i: int)
    ensures
        parse_project(s, i) matches Some((p, j)) ==> 0 <= i < j <= s.len(),
{
    if 0 <= i && i < s.len() && s[i] == 0x7B {
        lemma_skip_ws_bounds(s, i + 1);
        let k1 = skip_ws(s, i + 1);
        lemma_parse_key_bounds(s, k1, lit_name());
        match parse_key(s, k1, lit_name()) {
            None => {},
            Some(j1) => {
                lemma_parse_string_bounds(s, j1);
                match parse_string(s, j1) {
                    None => {},
                    Some((name, j2)) => {
                        lemma_skip_ws_bounds(s, j2);
                        let j3 = skip_ws(s, j2);
                        if j3 < s.len() && s[j3] == 0x2C {
                            lemma_skip_ws_bounds(s, j3 + 1);
                            let k2 = skip_ws(s, j3 + 1);
                            lemma_parse_key_bounds(s, k2, lit_tasks());
                            match parse_key(s, k2, lit_tasks()) {
                                None => {},
                                Some(j4) => {
                                    lemma_parse_tasks_bounds(s, j4);
                                    match parse_tasks(s, j4) {
                                        None => {},
                                        Some((ts, j5)) => {
                                            lemma_skip_ws_bounds(s, j5);
                                        },
                                    }
                                },
                            }
                        }
                    },
                }
            },
        }
    }
}

proof fn lemma_parse_projects_rest_bounds(s: Seq<u8>, i: int, acc: Seq<ProjectV>)
    ensures
        parse_projects_rest(s, i, acc) matches Some((x, j)) ==> i < j <= s.len(),
    decreases s.len() - i,
{
    let j = skip_ws(s, i);
    lemma_skip_ws_bounds(s, i);
    if j < s.len() && s[j] == 0x5D {
    } else if j < s.len() && s[j] == 0x2C {
        lemma_skip_ws_bounds(s, j + 1);
        let k = skip_ws(s, j + 1);
        lemma_parse_project_bounds(s, k);
        match parse_project(s, k) {
            None => {},
            Some((p, j2)) => {
                lemma_parse_projects_rest_bounds(s, j2, acc.push(p));
            },
        }
    }
}

// ---------------------------------------------------------------------------
// The executable encoder.
// ---------------------------------------------------------------------------

/// Append a line break and `n` spaces.
fn push_nl_ind(out: &mut Vec<u8>, n: usize)
    ensures
        final(out)@ == old(out)@ + nl_ind(n as nat),
{
    out.push(0x0A);
    let mut k: usize = 0;
    while k < n
        invariant
            k <= n,
            out@ == old(out)@ + seq![0x0Au8] + spaces(k as nat),
        decreases n - k,
    {
        out.push(0x20);
        k += 1;
        proof {
            assert(out@ =~= old(out)@ + seq![0x0Au8] + spaces(k as nat));
        }
    }
    proof {
        assert(out@ =~= old(out)@ + nl_ind(n as nat));
    }
}

/// Append one string byte in its escaped form.
fn push_escaped(out: &mut Vec<u8>, b: u8)
    ensures
        final(out)@ == old(out)@ + esc_byte(b),
{
    if b == 0x22 {
        out.push(0x5C);
        out.push(0x22);
    } else if b == 0x5C {
        out.push(0x5C);
        out.push(0x5C);
    } else if b < 0x20 {
        out.push(0x5C);
        out.push(0x75);
        out.push(0x30);
        out.push(0x30);
        let hi = b / 16;
        let lo = b % 16;
        out.push(if hi < 10 { 0x30 + hi } else { 0x57 + hi });
        out.push(if lo < 10 { 0x30 + lo } else { 0x57 + lo });
    } else {
        out.push(b);
    }
    proof {
        assert(out@ =~= old(out)@ + esc_byte(b));
    }
}

/// Append a quoted, escaped string.
fn push_string(out: &mut Vec<u8>, s: &Vec<u8>)
    ensures
        final(out)@ == old(out)@ + enc_string(s@),
{
    out.push(0x22);
    push_str_bytes(out, s, 0);
    out.push(0x22);
    proof {
        assert(s@.skip(0) =~= s@);
        assert(out@ =~= old(out)@ + enc_string(s@));
    }
}

/// Append the escaped bytes of `s` from position `i` on.
fn push_str_bytes(out: &mut Vec<u8>, s: &Vec<u8>, i: usize)
    requires
        i <= s@.len(),
    ensures
        final(out)@ == old(out)@ + enc_str_bytes(s@.skip(i as int)),
    decreases s@.len() - i,
{
    if i < s.len() {
        push_escaped(out, s[i]);
        push_str_bytes(out, s, i + 1);
        proof {
            assert(s@.skip(i as int).skip(1) =~= s@.skip(i + 1));
            assert(s@.skip(i as int)[0] == s@[i as int]);
            assert(out@ =~= old(out)@ + enc_str_bytes(s@.skip(i as int)));
        }
    } else {
        proof {
            assert(s@.skip(i as int) =~= Seq::<u8>::empty());
        }
    }
}

/// Append the decimal digits of `n`.
fn push_u32(out: &mut Vec<u8>, n: u32)
    ensures
        final(out)@ == old(out)@ + dec_digits(n as int),
    decreases n,
{
    if n < 10 {
        out.push(0x30 + (n as u8));
        proof {
            assert(out@ =~= old(out)@ + dec_digits(n as int));
        }
    } else {
        push_u32(out, n / 10);
        out.push(0x30 + ((n % 10) as u8));
        proof {
            assert(out@ =~= old(out)@ + dec_digits(n as int));
        }
    }
}

/// Append `true` or `false`.
fn push_bool(out: &mut Vec<u8>, b: bool)
    ensures
        final(out)@ == old(out)@ + enc_bool(b),
{
    if b {
        out.push(0x74);
        out.push(0x72);
        out.push(0x75);
        out.push(0x65);
    } else {
        out.push(0x66);
        out.push(0x61);
        out.push(0x6C);
        out.push(0x73);
        out.push(0x65);
    }
    proof {
        assert(out@ =~= old(out)@ + enc_bool(b));
    }
}

/// Append `"id": `.
fn push_key_id(out: &mut Vec<u8>)
    ensures
        final(out)@ == old(out)@ + enc_key(lit_id()),
{
    out.push(0x22);
    out.push(0x69);
    out.push(0x64);
    out.push(0x22);
    out.push(0x3A);
    out.push(0x20);
    proof {
        assert(out@ =~= old(out)@ + enc_key(lit_id()));
    }
}

/// Append `"description": `.
fn push_key_description(out: &mut Vec<u8>)
    ensures
        final(out)@ == old(out)@ + enc_key(lit_description()),
{
    out.push(0x22);
    out.push(0x64);
    out.push(0x65);
    out.push(0x73);
    out.push(0x63);
    out.push(0x72);
    out.push(0x69);
    out.push(0x70);
    out.push(0x74);
    out.push(0x69);
    out.push(0x6F);
    out.push(0x6E);
    out.push(0x22);
    out.push(0x3A);
    out.push(0x20);
    proof {
        assert(out@ =~= old(out)@ + enc_key(lit_description()));
    }
}

/// Append `"completed": `.
fn push_key_completed(out: &mut Vec<u8>)
    ensures
        final(out)@ == old(out)@ + enc_key(lit_completed()),
{
    out.push(0x22);
    out.push(0x63);
    out.push(0x6F);
    out.push(0x6D);
    out.push(0x70);
    out.push(0x6C);
    out.push(0x65);
    out.push(0x74);
    out.push(0x65);
    out.push(0x64);
    out.push(0x22);
    out.push(0x3A);
    out.push(0x20);
    proof {
        assert(out@ =~= old(out)@ + enc_key(lit_completed()));
    }
}

/// Append `"name": `.
fn push_key_name(out: &mut Vec<u8>)
    ensures
        final(out)@ == old(out)@ + enc_key(lit_name()),
{
    out.push(0x22);
    out.push(0x6E);
    out.push(0x61);
    out.push(0x6D);
    out.push(0x65);
    out.push(0x22);
    out.push(0x3A);
    out.push(0x20);
    proof {
        assert(out@ =~= old(out)@ + enc_key(lit_name()));
    }
}

/// Append `"tasks": `.
fn push_key_tasks(out: &mut Vec<u8>)
    ensures
        final(out)@ == old(out)@ + enc_key(lit_tasks()),
{
    out.push(0x22);
    out.push(0x74);
    out.push(0x61);
    out.push(0x73);
    out.push(0x6B);
    out.push(0x73);
    out.push(0x22);
    out.push(0x3A);
    out.push(0x20);
    proof {
        assert(out@ =~= old(out)@ + enc_key(lit_tasks()));
    }
}

/// Append one encoded task object.
fn push_task(out: &mut Vec<u8>, t: &Task)
    ensures
        final(out)@ == old(out)@ + enc_task(t@),
{
    out.push(0x7B);
    push_nl_ind(out, 8);
    push_key_id(out);
    push_u32(out, t.id);
    out.push(0x2C);
    push_nl_ind(out, 8);
    push_key_description(out);
    push_string(out, &t.description);
    out.push(0x2C);
    push_nl_ind(out, 8);
    push_key_completed(out);
    push_bool(out, t.completed);
    push_nl_ind(out, 6);
    out.push(0x7D);
    proof {
        assert(out@ =~= old(out)@ + enc_task(t@));
    }
}

/// Append every task from position `i` on, each preceded by a comma.
fn push_tasks_rest(out: &mut Vec<u8>, ts: &Vec<Task>, i: usize)
    requires
        i <= ts@.len(),
    ensures
        final(out)@ == old(out)@ + enc_tasks_rest(ts@.map_values(|t: Task| t@).skip(i as int)),
    decreases ts@.len() - i,
{
    let ghost tsv = ts@.map_values(|t: Task| t@);
    if i < ts.len() {
        out.push(0x2C);
        push_nl_ind(out, 6);
        push_task(out, &ts[i]);
        push_tasks_rest(out, ts, i + 1);
        proof {
            assert(tsv.skip(i as int).skip(1) =~= tsv.skip(i + 1));
            assert(tsv.skip(i as int)[0] == tsv[i as int]);
            assert(out@ =~= old(out)@ + enc_tasks_rest(tsv.skip(i as int)));
        }
    } else {
        proof {
            assert(tsv.skip(i as int) =~= Seq::<TaskV>::empty());
        }
    }
}

/// Append the encoded task array of a project.
fn push_tasks(out: &mut Vec<u8>, ts: &Vec<Task>)
    ensures
        final(out)@ == old(out)@ + enc_tasks(ts@.map_values(|t: Task| t@)),
{
    let ghost tsv = ts@.map_values(|t: Task| t@);
    out.push(0x5B);
    if ts.len() == 0 {
        out.push(0x5D);
        proof {
            assert(out@ =~= old(out)@ + enc_tasks(tsv));
        }
    } else {
        push_nl_ind(out, 6);
        push_task(out, &ts[0]);
        push_tasks_rest(out, ts, 1);
        push_nl_ind(out, 4);
        out.push(0x5D);
        proof {
            assert(tsv[0] == ts@[0]@);
            assert(tsv.skip(1) =~= ts@.map_values(|t: Task| t@).skip(1));
            assert(out@ =~= old(out)@ + enc_tasks(tsv));
        }
    }
}

/// Append one encoded project object.
fn push_project(out: &mut Vec<u8>, p: &Project)
    ensures
        final(out)@ == old(out)@ + enc_project(p@),
{
    out.push(0x7B);
    push_nl_ind(out, 4);
    push_key_name(out);
    push_string(out, &p.name);
    out.push(0x2C);
    push_nl_ind(out, 4);
    push_key_tasks(out);
    push_tasks(out, &p.tasks);
    push_nl_ind(out, 2);
    out.push(0x7D);
    proof {
        assert(out@ =~= old(out)@ + enc_project(p@));
    }
}

/// Append every project from position `i` on, each preceded by a comma.
fn push_projects_rest(out: &mut Vec<u8>, ps: &Vec<Project>, i: usize)
    requires
        i <= ps@.len(),
    ensures
        final(out)@ == old(out)@ + enc_projects_rest(ps@.map_values(|p: Project| p@).skip(i as int)),
    decreases ps@.len() - i,
{
    let ghost psv = ps@.map_values(|p: Project| p@);
    if i < ps.len() {
        out.push(0x2C);
        push_nl_ind(out, 2);
        push_project(out, &ps[i]);
        push_projects_rest(out, ps, i + 1);
        proof {
            assert(psv.skip(i as int).skip(1) =~= psv.skip(i + 1));
            assert(psv.skip(i as int)[0] == psv[i as int]);
            assert(out@ =~= old(out)@ + enc_projects_rest(psv.skip(i as int)));
        }
    } else {
        proof {
            assert(psv.skip(i as int) =~= Seq::<ProjectV>::empty());
        }
    }
}

// ---------------------------------------------------------------------------
// Round trip: the parser consumes exactly what the encoder writes and
// returns exactly the encoded value.
// ---------------------------------------------------------------------------

/// The bytes `x` stand at position `i` of `s`.
pub open spec fn bytes_at(s: Seq<u8>, i: int, x: Seq<u8>) -> bool {
    &&& 0 <= i
    &&& i + x.len() <= s.len()
    &&& s.subrange(i, i + x.len()) == x
}

proof fn lemma_bytes_at_index(s: Seq<u8>, i: int, x: Seq<u8>)
    requires
        bytes_at(s, i, x),
    ensures
        forall|k: int| 0 <= k < x.len() ==> s[i + k] == x[k],
{
    assert forall|k: int| 0 <= k < x.len() implies s[i + k] == x[k] by {
        assert(s.subrange(i, i + x.len())[k] == s[i + k]);
    }
}

proof fn lemma_bytes_at_split(s: Seq<u8>, i: int, a: Seq<u8>, b: Seq<u8>)
    requires
        bytes_at(s, i, a + b),
    ensures
        bytes_at(s, i, a),
        bytes_at(s, i + a.len(), b),
{
    lemma_bytes_at_index(s, i, a + b);
    assert(s.subrange(i, i + a.len()) =~= a);
    assert forall|k: int| 0 <= k < b.len() implies s.subrange(
        i + a.len(),
        i + a.len() + b.len(),
    )[k] == b[k] by {
        assert(s[i + (a.len() + k)] == (a + b)[a.len() + k]);
    }
    assert(s.subrange(i + a.len(), i + a.len() + b.len()) =~= b);
}

/// Skipping whitespace moves over exactly the whitespace bytes `w` when the
/// byte after them is not whitespace.
proof fn lemma_skip_ws_over(s: Seq<u8>, i: int, w: Seq<u8>)
    requires
        bytes_at(s, i, w),
        forall|k: int| 0 <= k < w.len() ==> is_ws(#[trigger] w[k]),
        i + w.len() == s.len() || !is_ws(s[i + w.len()]),
    ensures
        skip_ws(s, i) == i + w.len(),
    decreases w.len(),
{
    lemma_bytes_at_index(s, i, w);
    if w.len() == 0 {
    } else {
        assert(s[i + 0] == w[0]);
        assert(is_ws(s[i]));
        assert(bytes_at(s, i + 1, w.skip(1))) by {
            assert forall|k: int| 0 <= k < w.len() - 1 implies s.subrange(i + 1, i + w.len())[k]
                == w.skip(1)[k] by {
                assert(s[i + (k + 1)] == w[k + 1]);
            }
            assert(s.subrange(i + 1, i + w.len()) =~= w.skip(1));
        }
        lemma_skip_ws_over(s, i + 1, w.skip(1));
    }
}

/// Every byte of a line break with indentation is whitespace.
proof fn lemma_nl_ind_ws(n: nat)
    ensures
        forall|k: int| 0 <= k < nl_ind(n).len() ==> is_ws(#[trigger] nl_ind(n)[k]),
{
    assert forall|k: int| 0 <= k < nl_ind(n).len() implies is_ws(#[trigger] nl_ind(n)[k]) by {
        if k == 0 {
            assert(nl_ind(n)[0] == 0x0Au8);
        } else {
            assert(nl_ind(n)[k] == spaces(n)[k - 1]);
        }
    }
}

/// Powers of ten.
pub open spec fn pow10(k: nat) -> int
    decreases k,
{
    if k == 0 {
        1
    } else {
        10 * pow10((k - 1) as nat)
    }
}

proof fn lemma_pow10_pos(k: nat)
    ensures
        pow10(k) >= 1,
    decreases k,
{
    if k > 0 {
        lemma_pow10_pos((k - 1) as nat);
    }
}

/// The decimal form of a number is at least one byte, all digits.
proof fn lemma_dec_digits_digits(n: int)
    requires
        n >= 0,
    ensures
        dec_digits(n).len() >= 1,
        forall|k: int| 0 <= k < dec_digits(n).len() ==> is_digit(#[trigger] dec_digits(n)[k]),
    decreases n,
{
    if n >= 10 {
        lemma_dec_digits_digits(n / 10);
        assert forall|k: int| 0 <= k < dec_digits(n).len() implies is_digit(
            #[trigger] dec_digits(n)[k],
        ) by {
            if k < dec_digits(n / 10).len() {
                assert(dec_digits(n)[k] == dec_digits(n / 10)[k]);
            }
        }
    }
}

/// Running the digit reader over the decimal form of `n` extends the value
/// read so far by the digits of `n`.
#[verifier::rlimit(100)]
#[verifier::spinoff_prover]
proof fn lemma_parse_digits_run(s: Seq<u8>, i: int, acc: int, n: int)
    requires
        0 <= n,
        0 <= acc,
        bytes_at(s, i, dec_digits(n)),
        acc * pow10(dec_digits(n).len() as nat) + n <= u32::MAX,
    ensures
        parse_digits(s, i, acc) == parse_digits(
            s,
            i + dec_digits(n).len(),
            acc * pow10(dec_digits(n).len() as nat) + n,
        ),
    decreases n,
{
    lemma_bytes_at_index(s, i, dec_digits(n));
    if n < 10 {
        assert(dec_digits(n) =~= seq![(0x30 + n) as u8]);
        assert(s[i + 0] == dec_digits(n)[0]);
        assert(s[i] == (0x30 + n) as u8);
        assert(pow10(0) == 1);
        assert(pow10(1) == 10);
        assert(parse_digits(s, i, acc) == parse_digits(s, i + 1, acc * 10 + n));
    } else {
        let hd = dec_digits(n / 10);
        let k = hd.len();
        lemma_dec_digits_digits(n / 10);
        lemma_bytes_at_split(s, i, hd, seq![(0x30 + n % 10) as u8]);
        lemma_pow10_pos(k as nat);
        let a1 = acc * pow10(k as nat) + n / 10;
        assert(pow10((k + 1) as nat) == 10 * pow10(k as nat));
        assert(acc * pow10((k + 1) as nat) == (acc * pow10(k as nat)) * 10) by (nonlinear_arith)
            requires
                pow10((k + 1) as nat) == 10 * pow10(k as nat),
        ;
        assert(a1 * 10 + n % 10 == acc * pow10((k + 1) as nat) + n) by (nonlinear_arith)
            requires
                a1 == acc * pow10(k as nat) + n / 10,
                acc * pow10((k + 1) as nat) == (acc * pow10(k as nat)) * 10,
                n == 10 * (n / 10) + n % 10,
        ;
        assert(acc * pow10(k as nat) >= 0) by (nonlinear_arith)
            requires
                acc >= 0 && pow10(k as nat) >= 1,
        ;
        assert(0 <= a1);
        assert(pow10(0) == 1);
        assert(a1 * pow10(1) + n % 10 == a1 * 10 + n % 10);
        lemma_parse_digits_run(s, i, acc, n / 10);
        assert(dec_digits(n).len() == k + 1);
        lemma_parse_digits_run(s, i + k, a1, n % 10);
        assert(dec_digits(n % 10) =~= seq![(0x30 + n % 10) as u8]);
    }
}

/// Reading a number where the encoder wrote one yields that number, when
/// the byte after it is not a digit.
proof fn lemma_parse_u32_of(s: Seq<u8>, i: int, n: u32)
    requires
        bytes_at(s, i, dec_digits(n as int)),
        i + dec_digits(n as int).len() == s.len() || !is_digit(s[i + dec_digits(n as int).len()]),
    ensures
        parse_u32(s, i) == Some((n, i + dec_digits(n as int).len())),
{
    lemma_dec_digits_digits(n as int);
    lemma_bytes_at_index(s, i, dec_digits(n as int));
    lemma_pow10_pos(dec_digits(n as int).len() as nat);
    lemma_parse_digits_run(s, i, 0, n as int);
    let e = i + dec_digits(n as int).len();
    assert(parse_digits(s, e, n as int) == Some((n, e)));
}

/// The escape of a byte never begins with a quote, so escaped bodies are
/// self-delimiting; reading the body the encoder wrote, up to its closing
/// quote, yields exactly the original bytes.
#[verifier::rlimit(100)]
#[verifier::spinoff_prover]
proof fn lemma_parse_str_chars_of(s: Seq<u8>, i: int, x: Seq<u8>, acc: Seq<u8>)
    requires
        bytes_at(s, i, enc_str_bytes(x) + seq![0x22u8]),
    ensures
        parse_str_chars(s, i, acc) == Some((acc + x, i + enc_str_bytes(x).len() + 1)),
    decreases x.len(),
{
    if x.len() == 0 {
        lemma_bytes_at_index(s, i, enc_str_bytes(x) + seq![0x22u8]);
        assert((enc_str_bytes(x) + seq![0x22u8])[0] == 0x22);
        assert(s[i + 0] == 0x22);
        assert(acc + x =~= acc);
    } else {
        let b = x[0];
        let e = esc_byte(b);
        let tail = enc_str_bytes(x.skip(1)) + seq![0x22u8];
        assert(enc_str_bytes(x) + seq![0x22u8] =~= e + tail);
        lemma_bytes_at_split(s, i, e, tail);
        lemma_bytes_at_index(s, i, e);
        let i2 = i + e.len();
        if b == 0x22 || b == 0x5C {
            assert(s[i + 0] == e[0] && s[i + 1] == e[1]);
            assert(s[i] == 0x5C && s[i + 1] == b);
            lemma_parse_str_chars_of(s, i2, x.skip(1), acc.push(b));
            assert(acc.push(b) + x.skip(1) =~= acc + x);
        } else if b < 0x20 {
            let hi = b as int / 16;
            let lo = b as int % 16;
            assert(s[i + 0] == e[0] && s[i + 1] == e[1] && s[i + 2] == e[2] && s[i + 3] == e[3]
                && s[i + 4] == e[4] && s[i + 5] == e[5]);
            assert(s[i] == 0x5C && s[i + 1] == 0x75 && s[i + 2] == 0x30 && s[i + 3] == 0x30
                && s[i + 4] == hex_digit(hi) && s[i + 5] == hex_digit(lo));
            assert(is_hex(s[i + 2]) && hex_val(s[i + 2]) == 0);
            assert(is_hex(s[i + 3]) && hex_val(s[i + 3]) == 0);
            assert(is_hex(s[i + 4]) && hex_val(s[i + 4]) == hi);
            assert(is_hex(s[i + 5]) && hex_val(s[i + 5]) == lo);
            let cp = hex_val(s[i + 2]) * 4096 + hex_val(s[i + 3]) * 256 + hex_val(s[i + 4]) * 16
                + hex_val(s[i + 5]);
            assert(cp == b);
            assert(utf8_enc(cp) =~= seq![b]);
            assert(acc + utf8_enc(cp) =~= acc.push(b));
            lemma_parse_str_chars_of(s, i2, x.skip(1), acc.push(b));
            assert(acc.push(b) + x.skip(1) =~= acc + x);
        } else {
            assert(s[i + 0] == e[0]);
            assert(s[i] == b);
            lemma_parse_str_chars_of(s, i2, x.skip(1), acc.push(b));
            assert(acc.push(b) + x.skip(1) =~= acc + x);
        }
    }
}

/// Reading a string where the encoder wrote one yields the original bytes.
proof fn lemma_parse_string_of(s: Seq<u8>, i: int, x: Seq<u8>)
    requires
        bytes_at(s, i, enc_string(x)),
    ensures
        parse_string(s, i) == Some((x, i + enc_string(x).len())),
{
    assert(enc_string(x) =~= seq![0x22u8] + (enc_str_bytes(x) + seq![0x22u8]));
    lemma_bytes_at_split(s, i, seq![0x22u8], enc_str_bytes(x) + seq![0x22u8]);
    lemma_bytes_at_index(s, i, seq![0x22u8]);
    assert(s[i + 0] == seq![0x22u8][0]);
    lemma_parse_str_chars_of(s, i + 1, x, Seq::empty());
    assert(Seq::<u8>::empty() + x =~= x);
}

/// Reading a boolean where the encoder wrote one yields that boolean.
proof fn lemma_parse_bool_of(s: Seq<u8>, i: int, b: bool)
    requires
        bytes_at(s, i, enc_bool(b)),
    ensures
        parse_bool(s, i) == Some((b, i + enc_bool(b).len())),
{
    lemma_bytes_at_index(s, i, enc_bool(b));
    if b {
        assert(parse_exact(s, i, enc_bool(true)) == Some(i + 4));
    } else {
        assert(parse_exact(s, i, enc_bool(true)) is None) by {
            if 0 <= i && i + 4 <= s.len() {
                assert(s.subrange(i, i + 4)[0] == s[i]);
                assert(s[i] == 0x66);
            }
        }
        assert(parse_exact(s, i, enc_bool(false)) == Some(i + 5));
    }
}

/// Reading a key where the encoder wrote one moves to its value, when the
/// value's first byte is not whitespace.
proof fn lemma_parse_key_of(s: Seq<u8>, i: int, lit: Seq<u8>)
    requires
        bytes_at(s, i, enc_key(lit)),
        i + enc_key(lit).len() < s.len(),
        !is_ws(s[i + enc_key(lit).len()]),
    ensures
        parse_key(s, i, lit) == Some(i + enc_key(lit).len()),
{
    assert(enc_key(lit) =~= lit + seq![0x3Au8, 0x20]);
    lemma_bytes_at_split(s, i, lit, seq![0x3Au8, 0x20]);
    lemma_bytes_at_index(s, i + lit.len(), seq![0x3Au8, 0x20]);
    let j = i + lit.len();
    assert(parse_exact(s, i, lit) == Some(j));
    assert(skip_ws(s, j) == j) by {
        assert(!is_ws(0x3Au8));
    }
    assert(s[j] == 0x3A && j < s.len());
    assert(bytes_at(s, j + 1, seq![0x20u8])) by {
        assert(s.subrange(j + 1, j + 2) =~= seq![0x20u8]);
    }
    lemma_skip_ws_over(s, j + 1, seq![0x20u8]);
}


/// One task object, reassociated part by part.
#[verifier::rlimit(100)]
#[verifier::spinoff_prover]
proof fn lemma_enc_task_assoc(t: TaskV)
    ensures
        enc_task(t) == seq![0x7Bu8] + (nl_ind(8) + (enc_key(lit_id()) + (dec_digits(t.id as int)
            + (seq![0x2Cu8] + (nl_ind(8) + (enc_key(lit_description()) + (enc_string(t.description)
            + (seq![0x2Cu8] + (nl_ind(8) + (enc_key(lit_completed()) + (enc_bool(t.completed)
            + (nl_ind(6) + seq![0x7Du8])))))))))))),
{
    assert(enc_task(t) =~= seq![0x7Bu8] + (nl_ind(8) + (enc_key(lit_id()) + (dec_digits(
        t.id as int,
    ) + (seq![0x2Cu8] + (nl_ind(8) + (enc_key(lit_description()) + (enc_string(t.description)
        + (seq![0x2Cu8] + (nl_ind(8) + (enc_key(lit_completed()) + (enc_bool(t.completed) + (nl_ind(
        6,
    ) + seq![0x7Du8])))))))))))));
}

/// One project object, reassociated part by part.
#[verifier::rlimit(100)]
#[verifier::spinoff_prover]
proof fn lemma_enc_project_assoc(p: ProjectV)
    ensures
        enc_project(p) == seq![0x7Bu8] + (nl_ind(4) + (enc_key(lit_name()) + (enc_string(p.name)
            + (seq![0x2Cu8] + (nl_ind(4) + (enc_key(lit_tasks()) + (enc_tasks(p.tasks) + (nl_ind(2)
            + seq![0x7Du8])))))))),
{
    assert(enc_project(p) =~= seq![0x7Bu8] + (nl_ind(4) + (enc_key(lit_name()) + (enc_string(
        p.name,
    ) + (seq![0x2Cu8] + (nl_ind(4) + (enc_key(lit_tasks()) + (enc_tasks(p.tasks) + (nl_ind(2)
        + seq![0x7Du8])))))))));
}

/// A non-empty task array, reassociated part by part.
#[verifier::rlimit(100)]
#[verifier::spinoff_prover]
proof fn lemma_enc_tasks_assoc(ts: Seq<TaskV>)
    requires
        ts.len() > 0,
    ensures
        enc_tasks(ts) == seq![0x5Bu8] + (nl_ind(6) + (enc_task(ts[0]) + (enc_tasks_rest(ts.skip(1))
            + (nl_ind(4) + seq![0x5Du8])))),
{
    assert(enc_tasks(ts) =~= seq![0x5Bu8] + (nl_ind(6) + (enc_task(ts[0]) + (enc_tasks_rest(
        ts.skip(1),
    ) + (nl_ind(4) + seq![0x5Du8])))));
}

/// A non-empty tail of a task array with its closing, reassociated.
#[verifier::rlimit(100)]
#[verifier::spinoff_prover]
proof fn lemma_enc_tasks_rest_assoc(ts: Seq<TaskV>)
    requires
        ts.len() > 0,
    ensures
        enc_tasks_rest(ts) + (nl_ind(4) + seq![0x5Du8]) == seq![0x2Cu8] + (nl_ind(6) + (enc_task(
            ts[0],
        ) + (enc_tasks_rest(ts.skip(1)) + (nl_ind(4) + seq![0x5Du8])))),
{
    assert(enc_tasks_rest(ts) + (nl_ind(4) + seq![0x5Du8]) =~= seq![0x2Cu8] + (nl_ind(6)
        + (enc_task(ts[0]) + (enc_tasks_rest(ts.skip(1)) + (nl_ind(4) + seq![0x5Du8])))));
}

/// A non-empty tail of the document array with its closing, reassociated.
#[verifier::rlimit(100)]
#[verifier::spinoff_prover]
proof fn lemma_enc_projects_rest_assoc(c: Seq<ProjectV>)
    requires
        c.len() > 0,
    ensures
        enc_projects_rest(c) + (nl_ind(0) + seq![0x5Du8]) == seq![0x2Cu8] + (nl_ind(2)
            + (enc_project(c[0]) + (enc_projects_rest(c.skip(1)) + (nl_ind(0) + seq![0x5Du8])))),
{
    assert(enc_projects_rest(c) + (nl_ind(0) + seq![0x5Du8]) =~= seq![0x2Cu8] + (nl_ind(2)
        + (enc_project(c[0]) + (enc_projects_rest(c.skip(1)) + (nl_ind(0) + seq![0x5Du8])))));
}

/// Reading a task where the encoder wrote one yields that task.
#[verifier::rlimit(100)]
#[verifier::spinoff_prover]
proof fn lemma_parse_task_of(s: Seq<u8>, i: int, t: TaskV)
    requires
        bytes_at(s, i, enc_task(t)),
    ensures
        parse_task(s, i) == Some((t, i + enc_task(t).len())),
{
    let a0 = seq![0x7Bu8];
    let a1 = nl_ind(8);
    let a2 = enc_key(lit_id());
    let a3 = dec_digits(t.id as int);
    let a4 = seq![0x2Cu8];
    let a5 = nl_ind(8);
    let a6 = enc_key(lit_description());
    let a7 = enc_string(t.description);
    let a8 = seq![0x2Cu8];
    let a9 = nl_ind(8);
    let a10 = enc_key(lit_completed());
    let a11 = enc_bool(t.completed);
    let a12 = nl_ind(6);
    let a13 = seq![0x7Du8];
    let r13 = a13;
    let r12 = a12 + r13;
    let r11 = a11 + r12;
    let r10 = a10 + r11;
    let r9 = a9 + r10;
    let r8 = a8 + r9;
    let r7 = a7 + r8;
    let r6 = a6 + r7;
    let r5 = a5 + r6;
    let r4 = a4 + r5;
    let r3 = a3 + r4;
    let r2 = a2 + r3;
    let r1 = a1 + r2;
    lemma_enc_task_assoc(t);
    let q1 = i + a0.len();
    let q2 = q1 + a1.len();
    let q3 = q2 + a2.len();
    let q4 = q3 + a3.len();
    let q5 = q4 + a4.len();
    let q6 = q5 + a5.len();
    let q7 = q6 + a6.len();
    let q8 = q7 + a7.len();
    let q9 = q8 + a8.len();
    let q10 = q9 + a9.len();
    let q11 = q10 + a10.len();
    let q12 = q11 + a11.len();
    let q13 = q12 + a12.len();
    let q14 = q13 + a13.len();
    lemma_bytes_at_split(s, i, a0, r1);
    lemma_bytes_at_split(s, q1, a1, r2);
    lemma_bytes_at_split(s, q2, a2, r3);
    lemma_bytes_at_split(s, q3, a3, r4);
    lemma_bytes_at_split(s, q4, a4, r5);
    lemma_bytes_at_split(s, q5, a5, r6);
    lemma_bytes_at_split(s, q6, a6, r7);
    lemma_bytes_at_split(s, q7, a7, r8);
    lemma_bytes_at_split(s, q8, a8, r9);
    lemma_bytes_at_split(s, q9, a9, r10);
    lemma_bytes_at_split(s, q10, a10, r11);
    lemma_bytes_at_split(s, q11, a11, r12);
    lemma_bytes_at_split(s, q12, a12, r13);
    lemma_dec_digits_digits(t.id as int);
    // The opening brace.
    lemma_bytes_at_index(s, i, a0);
    assert(s[i + 0] == a0[0]);
    // Indentation, then the id key; its value begins with a digit.
    lemma_bytes_at_index(s, q2, a2);
    assert(s[q2 + 0] == a2[0] && a2[0] == lit_id()[0]);
    lemma_nl_ind_ws(8);
    lemma_skip_ws_over(s, q1, a1);
    lemma_bytes_at_index(s, q3, a3);
    assert(s[q3 + 0] == a3[0]);
    lemma_parse_key_of(s, q2, lit_id());
    // The number, ended by the comma.
    lemma_bytes_at_index(s, q4, a4);
    assert(s[q4 + 0] == a4[0]);
    lemma_parse_u32_of(s, q3, t.id);
    assert(skip_ws(s, q4) == q4);
    // Indentation, then the description key; its value begins with a quote.
    lemma_bytes_at_index(s, q6, a6);
    assert(s[q6 + 0] == a6[0] && a6[0] == lit_description()[0]);
    lemma_skip_ws_over(s, q5, a5);
    lemma_bytes_at_index(s, q7, a7);
    assert(s[q7 + 0] == a7[0] && a7[0] == 0x22);
    lemma_parse_key_of(s, q6, lit_description());
    // The string, ended by the comma.
    lemma_bytes_at_index(s, q8, a8);
    assert(s[q8 + 0] == a8[0]);
    lemma_parse_string_of(s, q7, t.description);
    assert(skip_ws(s, q8) == q8);
    // Indentation, then the completed key; its value begins with `t` or `f`.
    lemma_bytes_at_index(s, q10, a10);
    assert(s[q10 + 0] == a10[0] && a10[0] == lit_completed()[0]);
    lemma_skip_ws_over(s, q9, a9);
    lemma_bytes_at_index(s, q11, a11);
    assert(s[q11 + 0] == a11[0] && !is_ws(a11[0]));
    lemma_parse_key_of(s, q10, lit_completed());
    // The boolean, then indentation and the closing brace.
    lemma_parse_bool_of(s, q11, t.completed);
    lemma_bytes_at_index(s, q13, a13);
    assert(s[q13 + 0] == a13[0]);
    lemma_nl_ind_ws(6);
    lemma_skip_ws_over(s, q12, a12);
    assert(t == (TaskV { id: t.id, description: t.description, completed: t.completed }));
    assert(q14 == i + enc_task(t).len());
}

/// Reading the rest of a task array the encoder wrote, up to and over its
/// closing bracket, appends exactly the encoded tasks.
#[verifier::rlimit(100)]
#[verifier::spinoff_prover]
proof fn lemma_parse_tasks_rest_of(s: Seq<u8>, i: int, rest: Seq<TaskV>, acc: Seq<TaskV>)
    requires
        bytes_at(s, i, enc_tasks_rest(rest) + (nl_ind(4) + seq![0x5Du8])),
    ensures
        parse_tasks_rest(s, i, acc) == Some(
            (acc + rest, i + enc_tasks_rest(rest).len() + nl_ind(4).len() + 1),
        ),
    decreases rest.len(),
{
    if rest.len() == 0 {
        assert(enc_tasks_rest(rest) + (nl_ind(4) + seq![0x5Du8]) =~= nl_ind(4) + seq![0x5Du8]);
        lemma_bytes_at_split(s, i, nl_ind(4), seq![0x5Du8]);
        let q = i + nl_ind(4).len();
        lemma_bytes_at_index(s, q, seq![0x5Du8]);
        assert(s[q + 0] == seq![0x5Du8][0]);
        lemma_nl_ind_ws(4);
        lemma_skip_ws_over(s, i, nl_ind(4));
        assert(acc + rest =~= acc);
    } else {
        let d0 = seq![0x2Cu8];
        let d1 = nl_ind(6);
        let d2 = enc_task(rest[0]);
        let d3 = enc_tasks_rest(rest.skip(1)) + (nl_ind(4) + seq![0x5Du8]);
        let r3 = d3;
        let r2 = d2 + r3;
        let r1 = d1 + r2;
        lemma_enc_tasks_rest_assoc(rest);
        let q1 = i + d0.len();
        let q2 = q1 + d1.len();
        let q3 = q2 + d2.len();
        lemma_bytes_at_split(s, i, d0, r1);
        lemma_bytes_at_split(s, q1, d1, r2);
        lemma_bytes_at_split(s, q2, d2, r3);
        lemma_bytes_at_index(s, i, d0);
        assert(s[i + 0] == d0[0]);
        assert(skip_ws(s, i) == i);
        lemma_bytes_at_index(s, q2, d2);
        assert(s[q2 + 0] == d2[0]);
        assert(d2[0] == 0x7B) by {
            assert(enc_task(rest[0])[0] == seq![0x7Bu8][0]);
        }
        lemma_nl_ind_ws(6);
        lemma_skip_ws_over(s, q1, d1);
        lemma_parse_task_of(s, q2, rest[0]);
        lemma_parse_tasks_rest_of(s, q3, rest.skip(1), acc.push(rest[0]));
        assert(acc.push(rest[0]) + rest.skip(1) =~= acc + rest);
    }
}

/// Reading a task array where the encoder wrote one yields the encoded
/// tasks.
#[verifier::rlimit(100)]
#[verifier::spinoff_prover]
proof fn lemma_parse_tasks_of(s: Seq<u8>, i: int, ts: Seq<TaskV>)
    requires
        bytes_at(s, i, enc_tasks(ts)),
    ensures
        parse_tasks(s, i) == Some((ts, i + enc_tasks(ts).len())),
{
    if ts.len() == 0 {
        lemma_bytes_at_index(s, i, enc_tasks(ts));
        assert(s[i + 0] == enc_tasks(ts)[0] && s[i + 1] == enc_tasks(ts)[1]);
        assert(enc_tasks(ts) =~= seq![0x5Bu8, 0x5D]);
        assert(skip_ws(s, i + 1) == i + 1);
        assert(ts =~= Seq::<TaskV>::empty());
    } else {
        let c0 = seq![0x5Bu8];
        let c1 = nl_ind(6);
        let c2 = enc_task(ts[0]);
        let c3 = enc_tasks_rest(ts.skip(1)) + (nl_ind(4) + seq![0x5Du8]);
        let r3 = c3;
        let r2 = c2 + r3;
        let r1 = c1 + r2;
        lemma_enc_tasks_assoc(ts);
        let q1 = i + c0.len();
        let q2 = q1 + c1.len();
        let q3 = q2 + c2.len();
        lemma_bytes_at_split(s, i, c0, r1);
        lemma_bytes_at_split(s, q1, c1, r2);
        lemma_bytes_at_split(s, q2, c2, r3);
        lemma_bytes_at_index(s, i, c0);
        assert(s[i + 0] == c0[0]);
        lemma_bytes_at_index(s, q2, c2);
        assert(s[q2 + 0] == c2[0]);
        assert(c2[0] == 0x7B) by {
            assert(enc_task(ts[0])[0] == seq![0x7Bu8][0]);
        }
        lemma_nl_ind_ws(6);
        lemma_skip_ws_over(s, q1, c1);
        lemma_parse_task_of(s, q2, ts[0]);
        lemma_parse_tasks_rest_of(s, q3, ts.skip(1), seq![ts[0]]);
        assert(seq![ts[0]] + ts.skip(1) =~= ts);
    }
}

/// Reading a project where the encoder wrote one yields that project.
#[verifier::rlimit(100)]
#[verifier::spinoff_prover]
proof fn lemma_parse_project_of(s: Seq<u8>, i: int, p: ProjectV)
    requires
        bytes_at(s, i, enc_project(p)),
    ensures
        parse_project(s, i) == Some((p, i + enc_project(p).len())),
{
    let b0 = seq![0x7Bu8];
    let b1 = nl_ind(4);
    let b2 = enc_key(lit_name());
    let b3 = enc_string(p.name);
    let b4 = seq![0x2Cu8];
    let b5 = nl_ind(4);
    let b6 = enc_key(lit_tasks());
    let b7 = enc_tasks(p.tasks);
    let b8 = nl_ind(2);
    let b9 = seq![0x7Du8];
    let r9 = b9;
    let r8 = b8 + r9;
    let r7 = b7 + r8;
    let r6 = b6 + r7;
    let r5 = b5 + r6;
    let r4 = b4 + r5;
    let r3 = b3 + r4;
    let r2 = b2 + r3;
    let r1 = b1 + r2;
    lemma_enc_project_assoc(p);
    let q1 = i + b0.len();
    let q2 = q1 + b1.len();
    let q3 = q2 + b2.len();
    let q4 = q3 + b3.len();
    let q5 = q4 + b4.len();
    let q6 = q5 + b5.len();
    let q7 = q6 + b6.len();
    let q8 = q7 + b7.len();
    let q9 = q8 + b8.len();
    let q10 = q9 + b9.len();
    lemma_bytes_at_split(s, i, b0, r1);
    lemma_bytes_at_split(s, q1, b1, r2);
    lemma_bytes_at_split(s, q2, b2, r3);
    lemma_bytes_at_split(s, q3, b3, r4);
    lemma_bytes_at_split(s, q4, b4, r5);
    lemma_bytes_at_split(s, q5, b5, r6);
    lemma_bytes_at_split(s, q6, b6, r7);
    lemma_bytes_at_split(s, q7, b7, r8);
    lemma_bytes_at_split(s, q8, b8, r9);
    // The opening brace.
    lemma_bytes_at_index(s, i, b0);
    assert(s[i + 0] == b0[0]);
    // Indentation, then the name key; its value begins with a quote.
    lemma_bytes_at_index(s, q2, b2);
    assert(s[q2 + 0] == b2[0] && b2[0] == lit_name()[0]);
    lemma_nl_ind_ws(4);
    lemma_skip_ws_over(s, q1, b1);
    lemma_bytes_at_index(s, q3, b3);
    assert(s[q3 + 0] == b3[0] && b3[0] == 0x22);
    lemma_parse_key_of(s, q2, lit_name());
    // The name string, ended by the comma.
    lemma_bytes_at_index(s, q4, b4);
    assert(s[q4 + 0] == b4[0]);
    lemma_parse_string_of(s, q3, p.name);
    assert(skip_ws(s, q4) == q4);
    // Indentation, then the tasks key; its value begins with a bracket.
    lemma_bytes_at_index(s, q6, b6);
    assert(s[q6 + 0] == b6[0] && b6[0] == lit_tasks()[0]);
    lemma_skip_ws_over(s, q5, b5);
    lemma_bytes_at_index(s, q7, b7);
    assert(s[q7 + 0] == b7[0]);
    assert(b7[0] == 0x5B) by {
        if p.tasks.len() == 0 {
        } else {
            assert(enc_tasks(p.tasks)[0] == seq![0x5Bu8][0]);
        }
    }
    lemma_parse_key_of(s, q6, lit_tasks());
    // The task array, then indentation and the closing brace.
    lemma_parse_tasks_of(s, q7, p.tasks);
    lemma_bytes_at_index(s, q9, b9);
    assert(s[q9 + 0] == b9[0]);
    lemma_nl_ind_ws(2);
    lemma_skip_ws_over(s, q8, b8);
    assert(p == (ProjectV { name: p.name, tasks: p.tasks }));
    assert(q10 == i + enc_project(p).len());
}

/// Reading the rest of the document array the encoder wrote appends exactly
/// the encoded projects.
#[verifier::rlimit(100)]
#[verifier::spinoff_prover]
proof fn lemma_parse_projects_rest_of(s: Seq<u8>, i: int, rest: Seq<ProjectV>, acc: Seq<ProjectV>)
    requires
        bytes_at(s, i, enc_projects_rest(rest) + (nl_ind(0) + seq![0x5Du8])),
    ensures
        parse_projects_rest(s, i, acc) == Some(
            (acc + rest, i + enc_projects_rest(rest).len() + nl_ind(0).len() + 1),
        ),
    decreases rest.len(),
{
    if rest.len() == 0 {
        assert(enc_projects_rest(rest) + (nl_ind(0) + seq![0x5Du8]) =~= nl_ind(0) + seq![0x5Du8]);
        lemma_bytes_at_split(s, i, nl_ind(0), seq![0x5Du8]);
        let q = i + nl_ind(0).len();
        lemma_bytes_at_index(s, q, seq![0x5Du8]);
        assert(s[q + 0] == seq![0x5Du8][0]);
        lemma_nl_ind_ws(0);
        lemma_skip_ws_over(s, i, nl_ind(0));
        assert(acc + rest =~= acc);
    } else {
        let d0 = seq![0x2Cu8];
        let d1 = nl_ind(2);
        let d2 = enc_project(rest[0]);
        let d3 = enc_projects_rest(rest.skip(1)) + (nl_ind(0) + seq![0x5Du8]);
        let r3 = d3;
        let r2 = d2 + r3;
        let r1 = d1 + r2;
        lemma_enc_projects_rest_assoc(rest);
        let q1 = i + d0.len();
        let q2 = q1 + d1.len();
        let q3 = q2 + d2.len();
        lemma_bytes_at_split(s, i, d0, r1);
        lemma_bytes_at_split(s, q1, d1, r2);
        lemma_bytes_at_split(s, q2, d2, r3);
        lemma_bytes_at_index(s, i, d0);
        assert(s[i + 0] == d0[0]);
        assert(skip_ws(s, i) == i);
        lemma_bytes_at_index(s, q2, d2);
        assert(s[q2 + 0] == d2[0]);
        assert(d2[0] == 0x7B) by {
            assert(enc_project(rest[0])[0] == seq![0x7Bu8][0]);
        }
        lemma_nl_ind_ws(2);
        lemma_skip_ws_over(s, q1, d1);
        lemma_parse_project_of(s, q2, rest[0]);
        lemma_parse_projects_rest_of(s, q3, rest.skip(1), acc.push(rest[0]));
        assert(acc.push(rest[0]) + rest.skip(1) =~= acc + rest);
    }
}

/// Any sequence stands at its own start.
proof fn lemma_bytes_at_self(s: Seq<u8>)
    ensures
        bytes_at(s, 0, s),
{
    assert(s.subrange(0, s.len() as int) =~= s);
}

/// The document of a non-empty collection, reassociated part by part.
#[verifier::rlimit(100)]
#[verifier::spinoff_prover]
proof fn lemma_spec_encode_assoc(c: Seq<ProjectV>)
    requires
        c.len() > 0,
    ensures
        spec_encode(c) == seq![0x5Bu8] + (nl_ind(2) + (enc_project(c[0]) + (enc_projects_rest(
            c.skip(1),
        ) + (nl_ind(0) + seq![0x5Du8])))),
{
    assert(spec_encode(c) =~= seq![0x5Bu8] + (nl_ind(2) + (enc_project(c[0])
        + (enc_projects_rest(c.skip(1)) + (nl_ind(0) + seq![0x5Du8])))));
}

/// Reading the document array where the encoder wrote one yields the
/// encoded collection.
#[verifier::rlimit(100)]
#[verifier::spinoff_prover]
proof fn lemma_parse_doc_of(s: Seq<u8>, i: int, c: Seq<ProjectV>)
    requires
        bytes_at(s, i, spec_encode(c)),
    ensures
        parse_projects(s, i) == Some((c, i + spec_encode(c).len())),
        s[i] == 0x5B,
        spec_encode(c).len() >= 2,
{
    if c.len() == 0 {
        lemma_bytes_at_index(s, i, spec_encode(c));
        assert(s[i + 0] == spec_encode(c)[0] && s[i + 1] == spec_encode(c)[1]);
        assert(spec_encode(c) =~= seq![0x5Bu8, 0x5D]);
        assert(skip_ws(s, i + 1) == i + 1);
        assert(c =~= Seq::<ProjectV>::empty());
    } else {
        let c0 = seq![0x5Bu8];
        let c1 = nl_ind(2);
        let c2 = enc_project(c[0]);
        let c3 = enc_projects_rest(c.skip(1)) + (nl_ind(0) + seq![0x5Du8]);
        let r3 = c3;
        let r2 = c2 + r3;
        let r1 = c1 + r2;
        lemma_spec_encode_assoc(c);
        let q1: int = i + c0.len();
        let q2: int = q1 + c1.len();
        let q3: int = q2 + c2.len();
        lemma_bytes_at_split(s, i, c0, r1);
        lemma_bytes_at_split(s, q1, c1, r2);
        lemma_bytes_at_split(s, q2, c2, r3);
        lemma_bytes_at_index(s, i, c0);
        assert(s[i + 0] == c0[0]);
        lemma_bytes_at_index(s, q2, c2);
        assert(s[q2 + 0] == c2[0]);
        assert(c2[0] == 0x7B) by {
            assert(enc_project(c[0])[0] == seq![0x7Bu8][0]);
        }
        lemma_nl_ind_ws(2);
        lemma_skip_ws_over(s, q1, c1);
        lemma_parse_project_of(s, q2, c[0]);
        lemma_parse_projects_rest_of(s, q3, c.skip(1), seq![c[0]]);
        assert(seq![c[0]] + c.skip(1) =~= c);
    }
}

/// Decoding what the encoder wrote gives back exactly the encoded
/// collection: the round-trip law.
#[verifier::rlimit(100)]
#[verifier::spinoff_prover]
pub proof fn theorem_encode_decode_round_trip(c: Seq<ProjectV>)
    ensures
        spec_decode(spec_encode(c)) == Some(c),
{
    let s = spec_encode(c);
    lemma_bytes_at_self(s);
    lemma_parse_doc_of(s, 0, c);
    assert(skip_ws(s, 0) == 0);
    assert(skip_ws(s, s.len() as int) == s.len());
}

/// Empty input decodes to the empty collection, not an error.
pub proof fn lemma_decode_empty()
    ensures
        spec_decode(Seq::empty()) == Some(Seq::<ProjectV>::empty()),
{
}

// ---------------------------------------------------------------------------
// The executable decoder. Each function returns exactly what its
// mathematical counterpart denotes.
// ---------------------------------------------------------------------------

/// Move past whitespace.
fn p_skip_ws(s: &Vec<u8>, i: usize) -> (r: usize)
    requires
        i <= s@.len(),
    ensures
        r as int == skip_ws(s@, i as int),
        i <= r <= s@.len(),
{
    let mut k = i;
    while k < s.len() && (s[k] == 0x20 || s[k] == 0x0A || s[k] == 0x0D || s[k] == 0x09)
        invariant
            i <= k <= s@.len(),
            skip_ws(s@, i as int) == skip_ws(s@, k as int),
        decreases s@.len() - k,
    {
        k += 1;
    }
    k
}

/// Recognise the literal `tok` at position `i`.
fn p_exact(s: &Vec<u8>, i: usize, tok: &Vec<u8>) -> (r: Option<usize>)
    requires
        i <= s@.len(),
    ensures
        match r {
            Some(j) => parse_exact(s@, i as int, tok@) == Some(j as int) && i <= j <= s@.len(),
            None => parse_exact(s@, i as int, tok@) is None,
        },
{
    if s.len() - i < tok.len() {
        return None;
    }
    let mut k: usize = 0;
    while k < tok.len()
        invariant
            k <= tok@.len(),
            i + tok@.len() <= s@.len(),
            forall|m: int| 0 <= m < k ==> s@[i + m] == tok@[m],
        decreases tok@.len() - k,
    {
        let slen = s.len();
        proof {
            assert(i + k < slen);
        }
        if s[i + k] != tok[k] {
            proof {
                assert(s@.subrange(i as int, i + tok@.len()) != tok@) by {
                    assert(s@.subrange(i as int, i + tok@.len())[k as int] == s@[i + k]);
                }
            }
            return None;
        }
        k += 1;
    }
    proof {
        assert(s@.subrange(i as int, i + tok@.len()) =~= tok@);
    }
    Some(i + tok.len())
}

/// The bytes of `"id"`.
fn lit_id_vec() -> (v: Vec<u8>)
    ensures
        v@ == lit_id(),
{
    let mut v: Vec<u8> = Vec::new();
    v.push(0x22);
    v.push(0x69);
    v.push(0x64);
    v.push(0x22);
    proof {
        assert(v@ =~= lit_id());
    }
    v
}

/// The bytes of `"description"`.
fn lit_description_vec() -> (v: Vec<u8>)
    ensures
        v@ == lit_description(),
{
    let mut v: Vec<u8> = Vec::new();
    v.push(0x22);
    v.push(0x64);
    v.push(0x65);
    v.push(0x73);
    v.push(0x63);
    v.push(0x72);
    v.push(0x69);
    v.push(0x70);
    v.push(0x74);
    v.push(0x69);
    v.push(0x6F);
    v.push(0x6E);
    v.push(0x22);
    proof {
        assert(v@ =~= lit_description());
    }
    v
}

/// The bytes of `"completed"`.
fn lit_completed_vec() -> (v: Vec<u8>)
    ensures
        v@ == lit_completed(),
{
    let mut v: Vec<u8> = Vec::new();
    v.push(0x22);
    v.push(0x63);
    v.push(0x6F);
    v.push(0x6D);
    v.push(0x70);
    v.push(0x6C);
    v.push(0x65);
    v.push(0x74);
    v.push(0x65);
    v.push(0x64);
    v.push(0x22);
    proof {
        assert(v@ =~= lit_completed());
    }
    v
}

/// The bytes of `"name"`.
fn lit_name_vec() -> (v: Vec<u8>)
    ensures
        v@ == lit_name(),
{
    let mut v: Vec<u8> = Vec::new();
    v.push(0x22);
    v.push(0x6E);
    v.push(0x61);
    v.push(0x6D);
    v.push(0x65);
    v.push(0x22);
    proof {
        assert(v@ =~= lit_name());
    }
    v
}

/// The bytes of `"tasks"`.
fn lit_tasks_vec() -> (v: Vec<u8>)
    ensures
        v@ == lit_tasks(),
{
    let mut v: Vec<u8> = Vec::new();
    v.push(0x22);
    v.push(0x74);
    v.push(0x61);
    v.push(0x73);
    v.push(0x6B);
    v.push(0x73);
    v.push(0x22);
    proof {
        assert(v@ =~= lit_tasks());
    }
    v
}

/// The bytes of `true`.
fn lit_true_vec() -> (v: Vec<u8>)
    ensures
        v@ == enc_bool(true),
{
    let mut v: Vec<u8> = Vec::new();
    v.push(0x74);
    v.push(0x72);
    v.push(0x75);
    v.push(0x65);
    proof {
        assert(v@ =~= enc_bool(true));
    }
    v
}

/// The bytes of `false`.
fn lit_false_vec() -> (v: Vec<u8>)
    ensures
        v@ == enc_bool(false),
{
    let mut v: Vec<u8> = Vec::new();
    v.push(0x66);
    v.push(0x61);
    v.push(0x6C);
    v.push(0x73);
    v.push(0x65);
    proof {
        assert(v@ =~= enc_bool(false));
    }
    v
}

/// Read a number.
fn p_u32(s: &Vec<u8>, i: usize) -> (r: Option<(u32, usize)>)
    requires
        i <= s@.len(),
    ensures
        match r {
            Some((v, j)) => parse_u32(s@, i as int) == Some((v, j as int)) && i < j <= s@.len(),
            None => parse_u32(s@, i as int) is None,
        },
{
    if i >= s.len() || !(0x30 <= s[i] && s[i] <= 0x39) {
        return None;
    }
    let mut k = i;
    let mut acc: u32 = 0;
    while k < s.len() && 0x30 <= s[k] && s[k] <= 0x39
        invariant
            i <= k <= s@.len(),
            parse_digits(s@, i as int, 0) == parse_digits(s@, k as int, acc as int),
        decreases s@.len() - k,
    {
        let d = (s[k] - 0x30) as u64;
        let v64 = (acc as u64) * 10 + d;
        if v64 > u32::MAX as u64 {
            return None;
        }
        acc = v64 as u32;
        k += 1;
    }
    proof {
        lemma_parse_digits_bounds(s@, i as int, 0);
    }
    Some((acc, k))
}

/// Read the value of one hexadecimal digit.
fn p_hex_val(b: u8) -> (r: Option<u8>)
    ensures
        match r {
            Some(v) => is_hex(b) && v as int == hex_val(b),
            None => !is_hex(b),
        },
{
    if 0x30 <= b && b <= 0x39 {
        Some(b - 0x30)
    } else if 0x61 <= b && b <= 0x66 {
        Some(b - 0x57)
    } else if 0x41 <= b && b <= 0x46 {
        Some(b - 0x37)
    } else {
        None
    }
}

/// Read the body of a string after its opening quote, extending `acc`.
fn p_str_chars(s: &Vec<u8>, i: usize, acc: Vec<u8>) -> (r: Option<(Vec<u8>, usize)>)
    requires
        i <= s@.len(),
    ensures
        match r {
            Some((x, j)) => parse_str_chars(s@, i as int, acc@) == Some((x@, j as int)) && i < j
                <= s@.len(),
            None => parse_str_chars(s@, i as int, acc@) is None,
        },
    decreases s@.len() - i,
{
    if i >= s.len() {
        return None;
    }
    let b = s[i];
    if b == 0x22 {
        Some((acc, i + 1))
    } else if b == 0x5C {
        if s.len() - i < 2 {
            return None;
        }
        let e = s[i + 1];
        if e == 0x22 || e == 0x5C || e == 0x2F || e == 0x62 || e == 0x66 || e == 0x6E || e == 0x72
            || e == 0x74 {
            let decoded: u8 = if e == 0x62 {
                0x08
            } else if e == 0x66 {
                0x0C
            } else if e == 0x6E {
                0x0A
            } else if e == 0x72 {
                0x0D
            } else if e == 0x74 {
                0x09
            } else {
                e
            };
            let mut a = acc;
            a.push(decoded);
            p_str_chars(s, i + 2, a)
        } else if e == 0x75 {
            if s.len() - i < 6 {
                return None;
            }
            let h0 = p_hex_val(s[i + 2]);
            let h1 = p_hex_val(s[i + 3]);
            let h2 = p_hex_val(s[i + 4]);
            let h3 = p_hex_val(s[i + 5]);
            match (h0, h1, h2, h3) {
                (Some(a0), Some(a1), Some(a2), Some(a3)) => {
                    let cp: u32 = (a0 as u32) * 4096 + (a1 as u32) * 256 + (a2 as u32) * 16 + (
                    a3 as u32);
                    if 0xD800 <= cp && cp < 0xE000 {
                        return None;
                    }
                    let mut a = acc;
                    if cp < 0x80 {
                        a.push(cp as u8);
                    } else if cp < 0x800 {
                        a.push(0xC0 + (cp / 64) as u8);
                        a.push(0x80 + (cp % 64) as u8);
                    } else {
                        a.push(0xE0 + (cp / 4096) as u8);
                        a.push(0x80 + ((cp / 64) % 64) as u8);
                        a.push(0x80 + (cp % 64) as u8);
                    }
                    proof {
                        assert(a@ =~= acc@ + utf8_enc(cp as int));
                    }
                    p_str_chars(s, i + 6, a)
                },
                _ => None,
            }
        } else {
            None
        }
    } else if b < 0x20 {
        None
    } else {
        let mut a = acc;
        a.push(b);
        p_str_chars(s, i + 1, a)
    }
}

/// Read a quoted string.
fn p_string(s: &Vec<u8>, i: usize) -> (r: Option<(Vec<u8>, usize)>)
    requires
        i <= s@.len(),
    ensures
        match r {
            Some((x, j)) => parse_string(s@, i as int) == Some((x@, j as int)) && i < j <= s@.len(),
            None => parse_string(s@, i as int) is None,
        },
{
    if i < s.len() && s[i] == 0x22 {
        p_str_chars(s, i + 1, Vec::new())
    } else {
        None
    }
}

/// Read `true` or `false`.
fn p_bool(s: &Vec<u8>, i: usize) -> (r: Option<(bool, usize)>)
    requires
        i <= s@.len(),
    ensures
        match r {
            Some((b, j)) => parse_bool(s@, i as int) == Some((b, j as int)) && i < j <= s@.len(),
            None => parse_bool(s@, i as int) is None,
        },
{
    let t = lit_true_vec();
    match p_exact(s, i, &t) {
        Some(j) => Some((true, j)),
        None => {
            let f = lit_false_vec();
            match p_exact(s, i, &f) {
                Some(j) => Some((false, j)),
                None => None,
            }
        },
    }
}

/// Read a key and its colon; the result is the position of the value.
fn p_key(s: &Vec<u8>, i: usize, tok: &Vec<u8>) -> (r: Option<usize>)
    requires
        i <= s@.len(),
    ensures
        match r {
            Some(j) => parse_key(s@, i as int, tok@) == Some(j as int) && i <= j <= s@.len(),
            None => parse_key(s@, i as int, tok@) is None,
        },
{
    match p_exact(s, i, tok) {
        None => None,
        Some(j) => {
            let j2 = p_skip_ws(s, j);
            if j2 < s.len() && s[j2] == 0x3A {
                Some(p_skip_ws(s, j2 + 1))
            } else {
                None
            }
        },
    }
}

/// Read one task object.
fn p_task(s: &Vec<u8>, i: usize) -> (r: Option<(Task, usize)>)
    requires
        i <= s@.len(),
    ensures
        match r {
            Some((t, j)) => parse_task(s@, i as int) == Some((t@, j as int)) && i < j <= s@.len(),
            None => parse_task(s@, i as int) is None,
        },
{
    if !(i < s.len() && s[i] == 0x7B) {
        return None;
    }
    let k1 = p_skip_ws(s, i + 1);
    let key_id = lit_id_vec();
    let j1 = match p_key(s, k1, &key_id) {
        None => {
            return None;
        },
        Some(j) => j,
    };
    let (id, j2) = match p_u32(s, j1) {
        None => {
            return None;
        },
        Some(v) => v,
    };
    let j3 = p_skip_ws(s, j2);
    if !(j3 < s.len() && s[j3] == 0x2C) {
        return None;
    }
    let k2 = p_skip_ws(s, j3 + 1);
    let key_desc = lit_description_vec();
    let j4 = match p_key(s, k2, &key_desc) {
        None => {
            return None;
        },
        Some(j) => j,
    };
    let (desc, j5) = match p_string(s, j4) {
        None => {
            return None;
        },
        Some(v) => v,
    };
    let j6 = p_skip_ws(s, j5);
    if !(j6 < s.len() && s[j6] == 0x2C) {
        return None;
    }
    let k3 = p_skip_ws(s, j6 + 1);
    let key_done = lit_completed_vec();
    let j7 = match p_key(s, k3, &key_done) {
        None => {
            return None;
        },
        Some(j) => j,
    };
    let (done, j8) = match p_bool(s, j7) {
        None => {
            return None;
        },
        Some(v) => v,
    };
    let j9 = p_skip_ws(s, j8);
    if j9 < s.len() && s[j9] == 0x7D {
        Some((Task { id, description: desc, completed: done }, j9 + 1))
    } else {
        None
    }
}

/// Read every further task of an array, extending `acc`.
fn p_tasks_rest(s: &Vec<u8>, i: usize, acc: Vec<Task>) -> (r: Option<(Vec<Task>, usize)>)
    requires
        i <= s@.len(),
    ensures
        match r {
            Some((x, j)) => parse_tasks_rest(s@, i as int, acc@.map_values(|t: Task| t@)) == Some(
                (x@.map_values(|t: Task| t@), j as int),
            ) && i < j <= s@.len(),
            None => parse_tasks_rest(s@, i as int, acc@.map_values(|t: Task| t@)) is None,
        },
    decreases s@.len() - i,
{
    let j = p_skip_ws(s, i);
    if j < s.len() && s[j] == 0x5D {
        Some((acc, j + 1))
    } else if j < s.len() && s[j] == 0x2C {
        let k = p_skip_ws(s, j + 1);
        match p_task(s, k) {
            None => None,
            Some((t, j2)) => {
                let ghost tv = t@;
                let mut a = acc;
                a.push(t);
                proof {
                    assert(a@.map_values(|t: Task| t@) =~= acc@.map_values(|t: Task| t@).push(tv));
                }
                p_tasks_rest(s, j2, a)
            },
        }
    } else {
        None
    }
}

/// Read a task array.
fn p_tasks(s: &Vec<u8>, i: usize) -> (r: Option<(Vec<Task>, usize)>)
    requires
        i <= s@.len(),
    ensures
        match r {
            Some((x, j)) => parse_tasks(s@, i as int) == Some(
                (x@.map_values(|t: Task| t@), j as int),
            ) && i < j <= s@.len(),
            None => parse_tasks(s@, i as int) is None,
        },
{
    if !(i < s.len() && s[i] == 0x5B) {
        return None;
    }
    let j = p_skip_ws(s, i + 1);
    if j < s.len() && s[j] == 0x5D {
        let empty: Vec<Task> = Vec::new();
        proof {
            assert(empty@.map_values(|t: Task| t@) =~= Seq::<TaskV>::empty());
        }
        Some((empty, j + 1))
    } else {
        match p_task(s, j) {
            None => None,
            Some((t, j2)) => {
                let ghost tv = t@;
                let mut a: Vec<Task> = Vec::new();
                a.push(t);
                proof {
                    assert(a@.map_values(|t: Task| t@) =~= seq![tv]);
                }
                p_tasks_rest(s, j2, a)
            },
        }
    }
}

/// Read one project object.
fn p_project(s: &Vec<u8>, i: usize) -> (r: Option<(Project, usize)>)
    requires
        i <= s@.len(),
    ensures
        match r {
            Some((p, j)) => parse_project(s@, i as int) == Some((p@, j as int)) && i < j
                <= s@.len(),
            None => parse_project(s@, i as int) is None,
        },
{
    if !(i < s.len() && s[i] == 0x7B) {
        return None;
    }
    let k1 = p_skip_ws(s, i + 1);
    let key_name = lit_name_vec();
    let j1 = match p_key(s, k1, &key_name) {
        None => {
            return None;
        },
        Some(j) => j,
    };
    let (name, j2) = match p_string(s, j1) {
        None => {
            return None;
        },
        Some(v) => v,
    };
    let j3 = p_skip_ws(s, j2);
    if !(j3 < s.len() && s[j3] == 0x2C) {
        return None;
    }
    let k2 = p_skip_ws(s, j3 + 1);
    let key_tasks = lit_tasks_vec();
    let j4 = match p_key(s, k2, &key_tasks) {
        None => {
            return None;
        },
        Some(j) => j,
    };
    let (ts, j5) = match p_tasks(s, j4) {
        None => {
            return None;
        },
        Some(v) => v,
    };
    let j6 = p_skip_ws(s, j5);
    if j6 < s.len() && s[j6] == 0x7D {
        Some((Project { name, tasks: ts }, j6 + 1))
    } else {
        None
    }
}

/// Read every further project of the document array, extending `acc`.
fn p_projects_rest(s: &Vec<u8>, i: usize, acc: Vec<Project>) -> (r: Option<(Vec<Project>, usize)>)
    requires
        i <= s@.len(),
    ensures
        match r {
            Some((x, j)) => parse_projects_rest(s@, i as int, acc@.map_values(|p: Project| p@))
                == Some((x@.map_values(|p: Project| p@), j as int)) && i < j <= s@.len(),
            None => parse_projects_rest(s@, i as int, acc@.map_values(|p: Project| p@)) is None,
        },
    decreases s@.len() - i,
{
    let j = p_skip_ws(s, i);
    if j < s.len() && s[j] == 0x5D {
        Some((acc, j + 1))
    } else if j < s.len() && s[j] == 0x2C {
        let k = p_skip_ws(s, j + 1);
        match p_project(s, k) {
            None => None,
            Some((p, j2)) => {
                let ghost pv = p@;
                let mut a = acc;
                a.push(p);
                proof {
                    assert(a@.map_values(|p: Project| p@) =~= acc@.map_values(
                        |p: Project| p@,
                    ).push(pv));
                }
                p_projects_rest(s, j2, a)
            },
        }
    } else {
        None
    }
}

/// Read the document array.
fn p_projects(s: &Vec<u8>, i: usize) -> (r: Option<(Vec<Project>, usize)>)
    requires
        i <= s@.len(),
    ensures
        match r {
            Some((x, j)) => parse_projects(s@, i as int) == Some(
                (x@.map_values(|p: Project| p@), j as int),
            ) && i < j <= s@.len(),
            None => parse_projects(s@, i as int) is None,
        },
{
    if !(i < s.len() && s[i] == 0x5B) {
        return None;
    }
    let j = p_skip_ws(s, i + 1);
    if j < s.len() && s[j] == 0x5D {
        let empty: Vec<Project> = Vec::new();
        proof {
            assert(empty@.map_values(|p: Project| p@) =~= Seq::<ProjectV>::empty());
        }
        Some((empty, j + 1))
    } else {
        match p_project(s, j) {
            None => None,
            Some((p, j2)) => {
                let ghost pv = p@;
                let mut a: Vec<Project> = Vec::new();
                a.push(p);
                proof {
                    assert(a@.map_values(|p: Project| p@) =~= seq![pv]);
                }
                p_projects_rest(s, j2, a)
            },
        }
    }
}

/// Decode the persisted document. Empty input is the empty collection, the
/// expected state for first use; any other input must hold the document
/// array.
pub fn decode(s: &Vec<u8>) -> (r: Result<Collection, MalformedDataError>)
    ensures
        match r {
            Ok(c) => spec_decode(s@) == Some(c@),
            Err(e) => spec_decode(s@) is None,
        },
{
    if s.len() == 0 {
        let c = Collection { projects: Vec::new() };
        proof {
            assert(c@ =~= Seq::<ProjectV>::empty());
        }
        return Ok(c);
    }
    let i = p_skip_ws(s, 0);
    match p_projects(s, i) {
        None => Err(MalformedDataError),
        Some((ps, j)) => {
            let j2 = p_skip_ws(s, j);
            if j2 == s.len() {
                Ok(Collection { projects: ps })
            } else {
                Err(MalformedDataError)
            }
        },
    }
}

/// Encode the whole collection as the persisted document.
pub fn encode(c: &Collection) -> (r: Vec<u8>)
    ensures
        r@ == spec_encode(c@),
{
    let mut out: Vec<u8> = Vec::new();
    out.push(0x5B);
    if c.projects.len() == 0 {
        out.push(0x5D);
        proof {
            assert(out@ =~= spec_encode(c@));
        }
    } else {
        push_nl_ind(&mut out, 2);
        push_project(&mut out, &c.projects[0]);
        push_projects_rest(&mut out, &c.projects, 1);
        push_nl_ind(&mut out, 0);
        out.push(0x5D);
        proof {
            assert(c@[0] == c.projects@[0]@);
            assert(c@.skip(1) =~= c.projects@.map_values(|p: Project| p@).skip(1));
            assert(out@ =~= spec_encode(c@));
        }
    }
    out
}

} // verus!
