//! The kernel shell's own state and text handling: the command line being typed,
//! the working directory, splitting and lower-casing commands, and number output.
use vstd::prelude::*;

use crate::keyboard::Key;
use crate::task::{component_end, joined, lemma_component_end, names, rendered};

verus! {

/// Longest command line.
pub const COMMAND_CAPACITY: usize = 128;

/// Longest working directory, exclusive.
pub const CWD_CAPACITY: usize = 128;

/// What the console must show after a key.
#[derive(Clone, Copy, PartialEq, Eq, Structural, Debug)]
pub enum Echo {
    /// Nothing changed.
    Nothing,
    /// The character was added to the line.
    Character(char),
    /// The last character was taken off the line.
    Erase,
    /// The line was submitted.
    Submit,
}

/// The command line being typed.
pub struct Shell {
    command: [u8; 128],
    length: usize,
}

/// A character the command line takes: printable ASCII.
pub open spec fn accepted(character: char) -> bool {
    0x20 <= character as u32 <= 0x7e
}

impl Shell {
    pub closed spec fn line(&self) -> Seq<u8> {
        self.command@.subrange(0, self.length as int)
    }

    pub closed spec fn wf(&self) -> bool {
        self.length <= COMMAND_CAPACITY
    }

    pub fn new() -> (shell: Self)
        ensures
            shell.wf(),
            shell.line() == Seq::<u8>::empty(),
    {
        Shell { command: [0; 128], length: 0 }
    }

    /// Handles a key: printable characters are added while there is room, backspace
    /// takes one off, enter submits the line; anything else is ignored.
    pub fn handle_key(&mut self, key: Key) -> (echo: Echo)
        requires
            old(self).wf(),
        ensures
            final(self).wf(),
            match key {
                Key::Char(c) => if accepted(c) && old(self).line().len() < COMMAND_CAPACITY {
                    echo == Echo::Character(c) && final(self).line() == old(self).line().push(c as u8)
                } else {
                    echo == Echo::Nothing && final(self).line() == old(self).line()
                },
                Key::Backspace => if old(self).line().len() > 0 {
                    echo == Echo::Erase && final(self).line() == old(self).line().drop_last()
                } else {
                    echo == Echo::Nothing && final(self).line() == old(self).line()
                },
                Key::Enter => echo == Echo::Submit && final(self).line() == old(self).line(),
                _ => echo == Echo::Nothing && final(self).line() == old(self).line(),
            },
    {
        match key {
            Key::Char(character) => {
                let code = character as u32;
                if code < 0x20 || code > 0x7e || self.length == COMMAND_CAPACITY {
                    return Echo::Nothing;
                }
                let ghost before = self.line();
                self.command[self.length] = code as u8;
                self.length = self.length + 1;
                assert(self.line() =~= before.push(character as u8));
                Echo::Character(character)
            },
            Key::Backspace => {
                if self.length == 0 {
                    return Echo::Nothing;
                }
                let ghost before = self.line();
                self.length = self.length - 1;
                assert(self.line() =~= before.drop_last());
                Echo::Erase
            },
            Key::Enter => Echo::Submit,
            _ => Echo::Nothing,
        }
    }

    /// The line typed so far.
    pub fn command_line(&self) -> (line: Vec<u8>)
        requires
            self.wf(),
        ensures
            line@ == self.line(),
    {
        let mut line: Vec<u8> = Vec::new();
        let mut i: usize = 0;
        while i < self.length
            invariant
                self.wf(),
                i <= self.length,
                line@ == self.command@.subrange(0, i as int),
            decreases self.length - i,
        {
            line.push(self.command[i]);
            assert(self.command@.subrange(0, i + 1) =~= self.command@.subrange(0, i as int).push(self.command@[i as int]));
            i = i + 1;
        }
        line
    }

    /// Starts a new line.
    pub fn finish(&mut self)
        ensures
            final(self).wf(),
            final(self).line() == Seq::<u8>::empty(),
    {
        self.length = 0;
    }
}

/// The kernel shell's working directory.
pub struct ShellState {
    cwd: [u8; 128],
    cwd_len: usize,
}

impl ShellState {
    pub closed spec fn spec_cwd(&self) -> Seq<u8> {
        self.cwd@.subrange(0, self.cwd_len as int)
    }

    pub closed spec fn wf(&self) -> bool {
        self.cwd_len < CWD_CAPACITY
    }

    /// Starts at the root.
    pub fn new() -> (state: Self)
        ensures
            state.wf(),
            state.spec_cwd() == seq![0x2fu8],
    {
        let mut cwd = [0u8; 128];
        cwd[0] = 0x2f;
        let state = ShellState { cwd, cwd_len: 1 };
        assert(state.spec_cwd() =~= seq![0x2fu8]);
        state
    }

    /// The working directory.
    pub fn cwd(&self) -> (cwd: Vec<u8>)
        requires
            self.wf(),
        ensures
            cwd@ == self.spec_cwd(),
    {
        let mut out: Vec<u8> = Vec::new();
        let mut i: usize = 0;
        while i < self.cwd_len
            invariant
                self.wf(),
                i <= self.cwd_len,
                out@ == self.cwd@.subrange(0, i as int),
            decreases self.cwd_len - i,
        {
            out.push(self.cwd[i]);
            assert(self.cwd@.subrange(0, i + 1) =~= self.cwd@.subrange(0, i as int).push(self.cwd@[i as int]));
            i = i + 1;
        }
        out
    }

    /// Takes `path` as the working directory, unless it is empty or too long.
    pub fn set_cwd(&mut self, path: &[u8]) -> (taken: bool)
        requires
            old(self).wf(),
        ensures
            final(self).wf(),
            taken == (0 < path@.len() < CWD_CAPACITY),
            taken ==> final(self).spec_cwd() == path@,
            !taken ==> final(self).spec_cwd() == old(self).spec_cwd(),
    {
        let n = path.len();
        if n == 0 || n >= CWD_CAPACITY {
            return false;
        }
        let mut cwd = [0u8; 128];
        crate::block::copy_bytes(&mut cwd, 0, path, 0, n);
        self.cwd = cwd;
        self.cwd_len = n;
        assert(self.spec_cwd() =~= path@);
        true
    }
}

/// Whitespace a command line can hold.
pub open spec fn is_space(byte: u8) -> bool {
    byte == 0x20 || (0x09 <= byte <= 0x0d)
}

fn space(byte: u8) -> (result: bool)
    ensures
        result == is_space(byte),
{
    byte == 0x20 || (0x09 <= byte && byte <= 0x0d)
}

/// Splits a command line into its verb and the rest: surrounding whitespace goes,
/// the verb ends at the first whitespace, and the rest starts after the whitespace
/// that follows it. Both come back as ranges of `line`.
pub fn split_command(line: &[u8]) -> (parts: ((usize, usize), (usize, usize)))
    ensures
        ({
            let ((vs, ve), (rs, re)) = parts;
            &&& vs <= ve <= rs <= re <= line@.len()
            &&& forall|k: int| 0 <= k < vs ==> is_space(#[trigger] line@[k])
            &&& forall|k: int| re <= k < line@.len() ==> is_space(#[trigger] line@[k])
            &&& forall|k: int| vs <= k < ve ==> !is_space(#[trigger] line@[k])
            &&& forall|k: int| ve <= k < rs ==> is_space(#[trigger] line@[k])
            &&& (vs < re ==> !is_space(line@[vs as int]) && !is_space(line@[re - 1]))
            &&& (ve < re ==> is_space(line@[ve as int]))
            &&& (rs < re ==> !is_space(line@[rs as int]))
            &&& (vs == ve ==> rs == re)
        }),
{
    let n = line.len();
    let mut start: usize = 0;
    while start < n && space(line[start])
        invariant
            n == line@.len(),
            start <= n,
            forall|k: int| 0 <= k < start ==> is_space(#[trigger] line@[k]),
        decreases n - start,
    {
        start = start + 1;
    }
    let mut end: usize = n;
    while end > start && space(line[end - 1])
        invariant
            n == line@.len(),
            start <= end <= n,
            forall|k: int| end <= k < n ==> is_space(#[trigger] line@[k]),
        decreases end,
    {
        end = end - 1;
    }
    if start == end {
        return ((start, start), (start, start));
    }
    let mut verb_end = start;
    while verb_end < end && !space(line[verb_end])
        invariant
            n == line@.len(),
            start <= verb_end <= end <= n,
            forall|k: int| start <= k < verb_end ==> !is_space(#[trigger] line@[k]),
        decreases end - verb_end,
    {
        verb_end = verb_end + 1;
    }
    let mut rest = verb_end;
    while rest < end && space(line[rest])
        invariant
            n == line@.len(),
            verb_end <= rest <= end <= n,
            forall|k: int| verb_end <= k < rest ==> is_space(#[trigger] line@[k]),
        decreases end - rest,
    {
        rest = rest + 1;
    }
    ((start, verb_end), (rest, end))
}

/// `verb` with ASCII capitals made small, unless it is longer than 32 bytes.
pub open spec fn spec_lowercase(verb: Seq<u8>) -> Seq<u8> {
    if verb.len() > 32 {
        verb
    } else {
        verb.map_values(|b: u8| if 0x41 <= b <= 0x5a { (b + 32) as u8 } else { b })
    }
}

pub fn lowercase(verb: &[u8]) -> (lower: Vec<u8>)
    ensures
        lower@ == spec_lowercase(verb@),
{
    let n = verb.len();
    let mut out: Vec<u8> = Vec::new();
    let mut i: usize = 0;
    while i < n
        invariant
            n == verb@.len(),
            i <= n,
            n <= 32 ==> out@ == verb@.subrange(0, i as int).map_values(|b: u8| if 0x41 <= b <= 0x5a { (b + 32) as u8 } else { b }),
            n > 32 ==> out@ == verb@.subrange(0, i as int),
        decreases n - i,
    {
        let b = verb[i];
        if n <= 32 && 0x41 <= b && b <= 0x5a {
            out.push(b + 32);
        } else {
            out.push(b);
        }
        assert(verb@.subrange(0, i + 1) =~= verb@.subrange(0, i as int).push(b));
        i = i + 1;
    }
    assert(verb@.subrange(0, n as int) =~= verb@);
    out
}

/// `path` names something below `/mnt`.
pub open spec fn spec_is_mnt_child(path: Seq<u8>) -> bool {
    path.len() >= 5 && path.subrange(0, 5) == seq![0x2fu8, 0x6d, 0x6e, 0x74, 0x2f]
}

pub fn is_mnt_child(path: &[u8]) -> (child: bool)
    ensures
        child == spec_is_mnt_child(path@),
{
    let result = path.len() >= 5 && path[0] == 0x2f && path[1] == 0x6d && path[2] == 0x6e && path[3] == 0x74 && path[4]
        == 0x2f;
    proof {
        if path@.len() >= 5 {
            if result {
                assert(path@.subrange(0, 5) =~= seq![0x2fu8, 0x6d, 0x6e, 0x74, 0x2f]);
            } else if path@.subrange(0, 5) == seq![0x2fu8, 0x6d, 0x6e, 0x74, 0x2f] {
                assert(path@[0] == path@.subrange(0, 5)[0]);
                assert(path@[1] == path@.subrange(0, 5)[1]);
                assert(path@[2] == path@.subrange(0, 5)[2]);
                assert(path@[3] == path@.subrange(0, 5)[3]);
                assert(path@[4] == path@.subrange(0, 5)[4]);
            }
        }
    }
    result
}

/// `path` is `/mnt` or below it.
pub open spec fn spec_touches_mnt(path: Seq<u8>) -> bool {
    path == seq![0x2fu8, 0x6d, 0x6e, 0x74] || spec_is_mnt_child(path)
}

pub fn touches_mnt(path: &[u8]) -> (touches: bool)
    ensures
        touches == spec_touches_mnt(path@),
{
    let exact = path.len() == 4 && path[0] == 0x2f && path[1] == 0x6d && path[2] == 0x6e && path[3] == 0x74;
    proof {
        if exact {
            assert(path@ =~= seq![0x2fu8, 0x6d, 0x6e, 0x74]);
        } else if path@ == seq![0x2fu8, 0x6d, 0x6e, 0x74] {
            assert(path@[0] == 0x2f && path@[1] == 0x6d && path@[2] == 0x6e && path@[3] == 0x74);
        }
    }
    exact || is_mnt_child(path)
}

/// The directory holding the absolute path `path`: everything before its last
/// `/`, or the root when that is the first byte; none for the root itself or a
/// relative path.
pub open spec fn spec_parent_path(path: Seq<u8>) -> Option<Seq<u8>> {
    if path.len() == 0 || path[0] != 0x2f || path == seq![0x2fu8] {
        None
    } else {
        let index = last_slash(path, path.len() as int);
        if index == 0 {
            Some(seq![0x2fu8])
        } else {
            Some(path.subrange(0, index))
        }
    }
}

/// The position of the last `/` among the first `n` bytes of `path`, or -1.
pub open spec fn last_slash(path: Seq<u8>, n: int) -> int
    decreases n,
{
    if n <= 0 {
        -1
    } else if path[n - 1] == 0x2f {
        n - 1
    } else {
        last_slash(path, n - 1)
    }
}

proof fn lemma_last_slash_bounds(path: Seq<u8>, n: int)
    requires
        0 <= n <= path.len(),
    ensures
        -1 <= last_slash(path, n) < n,
        path.len() > 0 && path[0] == 0x2f && n > 0 ==> last_slash(path, n) >= 0,
    decreases n,
{
    if n > 0 {
        lemma_last_slash_bounds(path, n - 1);
    }
}

pub fn shell_parent_path(path: &[u8]) -> (parent: Option<Vec<u8>>)
    ensures
        match parent {
            Some(p) => spec_parent_path(path@) == Some(p@),
            None => spec_parent_path(path@) is None,
        },
{
    let n = path.len();
    if n == 0 || path[0] != 0x2f {
        return None;
    }
    if n == 1 {
        assert(path@ =~= seq![0x2fu8]);
        return None;
    }
    proof {
        if path@ == seq![0x2fu8] {
            assert(path@.len() == 1);
        }
    }
    let mut index: usize = n;
    while index > 0 && path[index - 1] != 0x2f
        invariant
            n == path@.len(),
            index <= n,
            last_slash(path@, n as int) == last_slash(path@, index as int),
        decreases index,
    {
        index = index - 1;
    }
    proof {
        lemma_last_slash_bounds(path@, n as int);
    }
    let slash = index - 1;
    if slash == 0 {
        let mut root: Vec<u8> = Vec::new();
        root.push(0x2f);
        assert(root@ =~= seq![0x2fu8]);
        return Some(root);
    }
    let mut out: Vec<u8> = Vec::new();
    let mut i: usize = 0;
    while i < slash
        invariant
            n == path@.len(),
            slash < n,
            i <= slash,
            out@ == path@.subrange(0, i as int),
        decreases slash - i,
    {
        out.push(path[i]);
        assert(path@.subrange(0, i + 1) =~= path@.subrange(0, i as int).push(path@[i as int]));
        i = i + 1;
    }
    Some(out)
}

/// The decimal digits of `value`, most significant first.
pub open spec fn decimal(value: nat) -> Seq<u8>
    decreases value,
{
    if value < 10 {
        seq![(0x30 + value) as u8]
    } else {
        decimal(value / 10).push((0x30 + value % 10) as u8)
    }
}

/// The decimal text of `value`.
pub fn format_u64(value: u64) -> (text: Vec<u8>)
    ensures
        text@ == decimal(value as nat),
    decreases value,
{
    if value < 10 {
        let mut out: Vec<u8> = Vec::new();
        out.push(0x30 + value as u8);
        assert(out@ =~= decimal(value as nat));
        return out;
    }
    let mut out = format_u64(value / 10);
    out.push(0x30 + (value % 10) as u8);
    out
}

/// The decimal text of `value`, with a minus sign when negative.
pub fn format_i64(value: i64) -> (text: Vec<u8>)
    ensures
        text@ == if value < 0 {
            seq![0x2du8] + decimal((-(value as int)) as nat)
        } else {
            decimal(value as nat)
        },
{
    if value < 0 {
        let magnitude: u64 = if value == i64::MIN {
            0x8000_0000_0000_0000
        } else {
            (-value) as u64
        };
        let digits = format_u64(magnitude);
        let mut out: Vec<u8> = Vec::new();
        out.push(0x2d);
        let n = digits.len();
        let mut i: usize = 0;
        while i < n
            invariant
                n == digits@.len(),
                i <= n,
                out@ == seq![0x2du8] + digits@.subrange(0, i as int),
            decreases n - i,
        {
            out.push(digits[i]);
            assert(digits@.subrange(0, i + 1) =~= digits@.subrange(0, i as int).push(digits@[i as int]));
            i = i + 1;
        }
        assert(digits@.subrange(0, n as int) =~= digits@);
        out
    } else {
        format_u64(value as u64)
    }
}

/// The hexadecimal digits of `value`, lower case, most significant first, with no
/// leading zeros but at least one digit.
pub open spec fn hexadecimal(value: nat) -> Seq<u8>
    decreases value,
{
    let digit = value % 16;
    let symbol = if digit < 10 { (0x30 + digit) as u8 } else { (0x61 + digit - 10) as u8 };
    if value < 16 {
        seq![symbol]
    } else {
        hexadecimal(value / 16).push(symbol)
    }
}

/// `0x` and the hexadecimal digits of `value`.
pub fn format_hex_u64(value: u64) -> (text: Vec<u8>)
    ensures
        text@ == seq![0x30u8, 0x78u8] + hexadecimal(value as nat),
{
    let digits = hex_digits(value);
    let mut out: Vec<u8> = Vec::new();
    out.push(0x30);
    out.push(0x78);
    let n = digits.len();
    let mut i: usize = 0;
    while i < n
        invariant
            n == digits@.len(),
            i <= n,
            out@ == seq![0x30u8, 0x78u8] + digits@.subrange(0, i as int),
        decreases n - i,
    {
        out.push(digits[i]);
        assert(digits@.subrange(0, i + 1) =~= digits@.subrange(0, i as int).push(digits@[i as int]));
        i = i + 1;
    }
    assert(digits@.subrange(0, n as int) =~= digits@);
    out
}

fn hex_digits(value: u64) -> (digits: Vec<u8>)
    ensures
        digits@ == hexadecimal(value as nat),
    decreases value,
{
    let digit = (value % 16) as u8;
    let symbol = if digit < 10 { 0x30 + digit } else { 0x61 + digit - 10 };
    if value < 16 {
        let mut out: Vec<u8> = Vec::new();
        out.push(symbol);
        assert(out@ =~= hexadecimal(value as nat));
        return out;
    }
    let mut out = hex_digits(value / 16);
    out.push(symbol);
    out
}


/// The directory stack after one more component: empty components and `.` change
/// nothing, `..` goes up but never above the root.
pub open spec fn shell_push(stack: Seq<Seq<u8>>, component: Seq<u8>) -> Seq<Seq<u8>> {
    if component.len() == 0 || component == seq![0x2eu8] {
        stack
    } else if component == seq![0x2eu8, 0x2eu8] {
        if stack.len() > 0 {
            stack.drop_last()
        } else {
            stack
        }
    } else {
        stack.push(component)
    }
}

/// The directory stack after the components of `path` from byte `from` on.
pub open spec fn shell_walk(stack: Seq<Seq<u8>>, path: Seq<u8>, from: int) -> Seq<Seq<u8>>
    decreases path.len() - from,
{
    if from < 0 || from > path.len() {
        stack
    } else {
        let end = component_end(path, from);
        let next = shell_push(stack, path.subrange(from, end));
        if from <= end < path.len() {
            shell_walk(next, path, end + 1)
        } else {
            next
        }
    }
}

/// The absolute path the shell means by `path` in the directory `cwd`.
pub open spec fn spec_shell_resolve(path: Seq<u8>, cwd: Seq<u8>) -> Seq<u8> {
    let absolute = if path.len() > 0 && path[0] == 0x2f {
        path
    } else if cwd == seq![0x2fu8] {
        seq![0x2fu8] + path
    } else {
        cwd + seq![0x2fu8] + path
    };
    rendered(shell_walk(Seq::empty(), absolute, 0))
}

fn resolve_absolute(path: &[u8]) -> (out: Vec<u8>)
    ensures
        out@ == rendered(shell_walk(Seq::empty(), path@, 0)),
{
    let length = path.len();
    let mut stack: Vec<(usize, usize)> = Vec::new();
    let mut at: usize = 0;
    proof {
        assert(names(path@, stack@) =~= Seq::<Seq<u8>>::empty());
    }
    loop
        invariant_except_break
            at <= length,
            shell_walk(Seq::empty(), path@, 0) == shell_walk(names(path@, stack@), path@, at as int),
        invariant
            length == path@.len(),
            forall|i: int| 0 <= i < stack@.len() ==> (#[trigger] stack@[i]).0 <= stack@[i].1 <= length,
        ensures
            shell_walk(Seq::empty(), path@, 0) == names(path@, stack@),
        decreases length - at,
    {
        let mut end = at;
        while end < length && path[end] != 0x2f
            invariant
                at <= end <= length,
                length == path@.len(),
                forall|k: int| at <= k < end ==> path@[k] != 0x2f,
            decreases length - end,
        {
            end = end + 1;
        }
        proof {
            lemma_component_end(path@, at as int);
            if component_end(path@, at as int) < end {
                assert(path@[component_end(path@, at as int)] == 0x2f);
            }
            if component_end(path@, at as int) > end {
                assert(path@[end as int] != 0x2f);
            }
            assert(component_end(path@, at as int) == end);
        }
        let ghost component = path@.subrange(at as int, end as int);
        let ghost before = names(path@, stack@);
        let size = end - at;
        if size == 0 || (size == 1 && path[at] == 0x2e) {
            proof {
                if size == 1 {
                    assert(component =~= seq![0x2eu8]);
                }
            }
        } else if size == 2 && path[at] == 0x2e && path[at + 1] == 0x2e {
            proof {
                assert(component =~= seq![0x2eu8, 0x2eu8]);
            }
            if stack.len() > 0 {
                stack.pop();
                proof {
                    assert(names(path@, stack@) =~= before.drop_last());
                }
            }
        } else {
            proof {
                if size == 1 {
                    assert(component != seq![0x2eu8]) by {
                        assert(component[0] != seq![0x2eu8][0]);
                    }
                }
                if size == 2 {
                    assert(component != seq![0x2eu8, 0x2eu8]) by {
                        if path[at as int] != 0x2e {
                            assert(component[0] != seq![0x2eu8, 0x2eu8][0]);
                        } else {
                            assert(component[1] != seq![0x2eu8, 0x2eu8][1]);
                        }
                    }
                }
            }
            stack.push((at, end));
            proof {
                assert(names(path@, stack@) =~= before.push(component));
                assert(component.len() != 0);
                assert(component != seq![0x2eu8]);
                assert(component != seq![0x2eu8, 0x2eu8]);
            }
        }
        proof {
            assert(shell_push(before, component) == names(path@, stack@));
        }
        if end >= length {
            break;
        }
        at = end + 1;
    }
    let ghost parts = names(path@, stack@);
    let mut out: Vec<u8> = Vec::new();
    let mut k: usize = 0;
    while k < stack.len()
        invariant
            k <= stack@.len(),
            length == path@.len(),
            parts == names(path@, stack@),
            forall|i: int| 0 <= i < stack@.len() ==> (#[trigger] stack@[i]).0 <= stack@[i].1 <= length,
            out@ == joined(parts.take(k as int)),
        decreases stack@.len() - k,
    {
        let (start, end) = stack[k];
        out.push(0x2f);
        let mut j = start;
        let ghost prefix = out@;
        while j < end
            invariant
                start <= j <= end <= length,
                length == path@.len(),
                out@ == prefix + path@.subrange(start as int, j as int),
            decreases end - j,
        {
            out.push(path[j]);
            proof {
                assert(path@.subrange(start as int, j as int + 1) =~= path@.subrange(start as int, j as int).push(path@[j as int]));
            }
            j = j + 1;
        }
        proof {
            assert(parts.take(k as int + 1).drop_last() =~= parts.take(k as int));
        }
        k = k + 1;
    }
    proof {
        assert(parts.take(stack@.len() as int) =~= parts);
    }
    if stack.len() == 0 {
        out.push(0x2f);
        proof {
            assert(out@ =~= seq![0x2fu8]);
        }
    }
    out
}

/// The absolute path `path` names with `cwd` as the working directory: `.`, `..`
/// and repeated slashes resolved.
pub fn shell_resolve(path: &[u8], cwd: &[u8]) -> (absolute: Vec<u8>)
    ensures
        absolute@ == spec_shell_resolve(path@, cwd@),
{
    let mut joined_path: Vec<u8> = Vec::new();
    if path.len() > 0 && path[0] == 0x2f {
        crate::task::append(&mut joined_path, path);
    } else {
        let root = cwd.len() == 1 && cwd[0] == 0x2f;
        proof {
            if root {
                assert(cwd@ =~= seq![0x2fu8]);
            } else if cwd@ == seq![0x2fu8] {
                assert(cwd@.len() == 1 && cwd@[0] == 0x2f);
            }
        }
        if !root {
            crate::task::append(&mut joined_path, cwd);
        }
        joined_path.push(0x2f);
        crate::task::append(&mut joined_path, path);
        proof {
            if root {
                assert(joined_path@ =~= seq![0x2fu8] + path@);
            } else {
                assert(joined_path@ =~= cwd@ + seq![0x2fu8] + path@);
            }
        }
    }
    proof {
        if path@.len() > 0 && path@[0] == 0x2f {
            assert(joined_path@ =~= path@);
        }
    }
    resolve_absolute(joined_path.as_slice())
}

} // verus!
