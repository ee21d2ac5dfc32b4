//! The system call interface: call numbers, the saved user frame, and the
//! encodings of arguments and results.
use vstd::prelude::*;

verus! {

/// The value a failed system call returns.
pub const SYSCALL_ERROR: u64 = 0xffff_ffff_ffff_ffff;

/// Longest path a system call accepts.
pub const MAX_PATH_SIZE: usize = 128;

/// Completion bits of the user-mode checks: console write, open, read, close.
pub const IO_WRITE: u64 = 0x1;
pub const IO_OPEN: u64 = 0x2;
pub const IO_READ: u64 = 0x4;
pub const IO_CLOSE: u64 = 0x8;
pub const IO_MMAP: u64 = 0x10;
pub const IO_MUNMAP: u64 = 0x20;
pub const IO_FILE_WRITE: u64 = 0x40;
pub const IO_GETUID: u64 = 0x80;
pub const IO_GETGID: u64 = 0x100;
pub const IO_EXEC: u64 = 0x200;
pub const IO_FORK: u64 = 0x400;
pub const IO_STDIN: u64 = 0x800;
pub const IO_STDERR: u64 = 0x1000;

/// A system call, by the number user code puts in RAX.
#[derive(Clone, Copy, PartialEq, Eq, Structural, Debug)]
pub enum Number {
    Read,
    Write,
    Open,
    Exit,
    Getpid,
    Waitpid,
    Close,
    Yield,
    Mmap,
    Munmap,
    FileWrite,
    MessageSend,
    MessageReceive,
    Getuid,
    Getgid,
    Exec,
    Fork,
    Stat,
    Readdir,
    Mkdir,
    Chdir,
    Getcwd,
    Dup,
    Pipe,
    Dup2,
    Getppid,
    Kill,
    Lseek,
    Unlink,
    Sleep,
    Rename,
    Getticks,
    Sync,
    Ioctl,
    Sigaction,
    Getpgrp,
    Setpgid,
    Socket,
    Bind,
    Connect,
    NetSend,
    NetRecv,
    NetClose,
    NetInfo,
    DnsStart,
    DnsPoll,
    NetPeer,
    Dhcp,
    PingStart,
    PingPoll,
}

/// The number of a system call.
pub open spec fn spec_code(number: Number) -> u64 {
    match number {
        Number::Read => 0,
        Number::Write => 1,
        Number::Open => 2,
        Number::Exit => 3,
        Number::Getpid => 4,
        Number::Waitpid => 5,
        Number::Close => 6,
        Number::Yield => 7,
        Number::Mmap => 8,
        Number::Munmap => 9,
        Number::FileWrite => 10,
        Number::MessageSend => 11,
        Number::MessageReceive => 12,
        Number::Getuid => 13,
        Number::Getgid => 14,
        Number::Exec => 15,
        Number::Fork => 16,
        Number::Stat => 17,
        Number::Readdir => 18,
        Number::Mkdir => 19,
        Number::Chdir => 20,
        Number::Getcwd => 21,
        Number::Dup => 22,
        Number::Pipe => 23,
        Number::Dup2 => 24,
        Number::Getppid => 25,
        Number::Kill => 26,
        Number::Lseek => 27,
        Number::Unlink => 28,
        Number::Sleep => 29,
        Number::Rename => 30,
        Number::Getticks => 31,
        Number::Sync => 32,
        Number::Ioctl => 33,
        Number::Sigaction => 34,
        Number::Getpgrp => 35,
        Number::Setpgid => 36,
        Number::Socket => 37,
        Number::Bind => 38,
        Number::Connect => 39,
        Number::NetSend => 40,
        Number::NetRecv => 41,
        Number::NetClose => 42,
        Number::NetInfo => 43,
        Number::DnsStart => 44,
        Number::DnsPoll => 45,
        Number::NetPeer => 46,
        Number::Dhcp => 47,
        Number::PingStart => 48,
        Number::PingPoll => 49,
    }
}

/// The system call a number names, if any.
pub open spec fn spec_from_code(code: u64) -> Option<Number> {
    match code {
        0 => Some(Number::Read),
        1 => Some(Number::Write),
        2 => Some(Number::Open),
        3 => Some(Number::Exit),
        4 => Some(Number::Getpid),
        5 => Some(Number::Waitpid),
        6 => Some(Number::Close),
        7 => Some(Number::Yield),
        8 => Some(Number::Mmap),
        9 => Some(Number::Munmap),
        10 => Some(Number::FileWrite),
        11 => Some(Number::MessageSend),
        12 => Some(Number::MessageReceive),
        13 => Some(Number::Getuid),
        14 => Some(Number::Getgid),
        15 => Some(Number::Exec),
        16 => Some(Number::Fork),
        17 => Some(Number::Stat),
        18 => Some(Number::Readdir),
        19 => Some(Number::Mkdir),
        20 => Some(Number::Chdir),
        21 => Some(Number::Getcwd),
        22 => Some(Number::Dup),
        23 => Some(Number::Pipe),
        24 => Some(Number::Dup2),
        25 => Some(Number::Getppid),
        26 => Some(Number::Kill),
        27 => Some(Number::Lseek),
        28 => Some(Number::Unlink),
        29 => Some(Number::Sleep),
        30 => Some(Number::Rename),
        31 => Some(Number::Getticks),
        32 => Some(Number::Sync),
        33 => Some(Number::Ioctl),
        34 => Some(Number::Sigaction),
        35 => Some(Number::Getpgrp),
        36 => Some(Number::Setpgid),
        37 => Some(Number::Socket),
        38 => Some(Number::Bind),
        39 => Some(Number::Connect),
        40 => Some(Number::NetSend),
        41 => Some(Number::NetRecv),
        42 => Some(Number::NetClose),
        43 => Some(Number::NetInfo),
        44 => Some(Number::DnsStart),
        45 => Some(Number::DnsPoll),
        46 => Some(Number::NetPeer),
        47 => Some(Number::Dhcp),
        48 => Some(Number::PingStart),
        49 => Some(Number::PingPoll),
        _ => None,
    }
}

impl Number {
    pub fn code(self) -> (code: u64)
        ensures
            code == spec_code(self),
    {
        match self {
            Number::Read => 0,
            Number::Write => 1,
            Number::Open => 2,
            Number::Exit => 3,
            Number::Getpid => 4,
            Number::Waitpid => 5,
            Number::Close => 6,
            Number::Yield => 7,
            Number::Mmap => 8,
            Number::Munmap => 9,
            Number::FileWrite => 10,
            Number::MessageSend => 11,
            Number::MessageReceive => 12,
            Number::Getuid => 13,
            Number::Getgid => 14,
            Number::Exec => 15,
            Number::Fork => 16,
            Number::Stat => 17,
            Number::Readdir => 18,
            Number::Mkdir => 19,
            Number::Chdir => 20,
            Number::Getcwd => 21,
            Number::Dup => 22,
            Number::Pipe => 23,
            Number::Dup2 => 24,
            Number::Getppid => 25,
            Number::Kill => 26,
            Number::Lseek => 27,
            Number::Unlink => 28,
            Number::Sleep => 29,
            Number::Rename => 30,
            Number::Getticks => 31,
            Number::Sync => 32,
            Number::Ioctl => 33,
            Number::Sigaction => 34,
            Number::Getpgrp => 35,
            Number::Setpgid => 36,
            Number::Socket => 37,
            Number::Bind => 38,
            Number::Connect => 39,
            Number::NetSend => 40,
            Number::NetRecv => 41,
            Number::NetClose => 42,
            Number::NetInfo => 43,
            Number::DnsStart => 44,
            Number::DnsPoll => 45,
            Number::NetPeer => 46,
            Number::Dhcp => 47,
            Number::PingStart => 48,
            Number::PingPoll => 49,
        }
    }

    pub fn from_code(code: u64) -> (number: Option<Number>)
        ensures
            number == spec_from_code(code),
    {
        match code {
            0 => Some(Number::Read),
            1 => Some(Number::Write),
            2 => Some(Number::Open),
            3 => Some(Number::Exit),
            4 => Some(Number::Getpid),
            5 => Some(Number::Waitpid),
            6 => Some(Number::Close),
            7 => Some(Number::Yield),
            8 => Some(Number::Mmap),
            9 => Some(Number::Munmap),
            10 => Some(Number::FileWrite),
            11 => Some(Number::MessageSend),
            12 => Some(Number::MessageReceive),
            13 => Some(Number::Getuid),
            14 => Some(Number::Getgid),
            15 => Some(Number::Exec),
            16 => Some(Number::Fork),
            17 => Some(Number::Stat),
            18 => Some(Number::Readdir),
            19 => Some(Number::Mkdir),
            20 => Some(Number::Chdir),
            21 => Some(Number::Getcwd),
            22 => Some(Number::Dup),
            23 => Some(Number::Pipe),
            24 => Some(Number::Dup2),
            25 => Some(Number::Getppid),
            26 => Some(Number::Kill),
            27 => Some(Number::Lseek),
            28 => Some(Number::Unlink),
            29 => Some(Number::Sleep),
            30 => Some(Number::Rename),
            31 => Some(Number::Getticks),
            32 => Some(Number::Sync),
            33 => Some(Number::Ioctl),
            34 => Some(Number::Sigaction),
            35 => Some(Number::Getpgrp),
            36 => Some(Number::Setpgid),
            37 => Some(Number::Socket),
            38 => Some(Number::Bind),
            39 => Some(Number::Connect),
            40 => Some(Number::NetSend),
            41 => Some(Number::NetRecv),
            42 => Some(Number::NetClose),
            43 => Some(Number::NetInfo),
            44 => Some(Number::DnsStart),
            45 => Some(Number::DnsPoll),
            46 => Some(Number::NetPeer),
            47 => Some(Number::Dhcp),
            48 => Some(Number::PingStart),
            49 => Some(Number::PingPoll),
            _ => None,
        }
    }
}

/// Every system call's number names it again, and the numbers are those below 50.
pub proof fn law_numbers_round_trip(number: Number, code: u64)
    ensures
        spec_from_code(spec_code(number)) == Some(number),
        spec_from_code(code) is Some <==> code < 50,
        spec_from_code(code) matches Some(n) ==> spec_code(n) == code,
{
}

/// The registers a system call saved, in the order the entry stub pushed them.
#[derive(Clone, Copy, PartialEq, Eq, Structural, Debug, Default)]
pub struct UserForkFrame {
    pub r15: u64,
    pub r14: u64,
    pub r13: u64,
    pub r12: u64,
    pub r11: u64,
    pub r10: u64,
    pub r9: u64,
    pub r8: u64,
    pub rbp: u64,
    pub rdi: u64,
    pub rsi: u64,
    pub rdx: u64,
    pub rcx: u64,
    pub rbx: u64,
    pub rax: u64,
    pub rip: u64,
    pub cs: u64,
    pub rflags: u64,
    pub rsp: u64,
    pub ss: u64,
}

impl UserForkFrame {
    /// The frame a forked child resumes with: the parent's, with fork returning zero.
    pub fn child_return(self) -> (child: Self)
        ensures
            child == (UserForkFrame { rax: 0, ..self }),
    {
        UserForkFrame { rax: 0, ..self }
    }
}

/// What the dispatcher remembers of completed calls: the last number, how many
/// completed, the completion bits of the user-mode checks, and whether a yield is
/// due on the way out.
#[derive(Clone, Copy, PartialEq, Eq, Structural, Debug)]
pub struct CompletionLog {
    pub last_completed: u64,
    pub completions: u64,
    pub io: u64,
    pub yield_pending: bool,
}

impl CompletionLog {
    pub fn new() -> (log: Self)
        ensures
            log == (CompletionLog { last_completed: u64::MAX, completions: 0, io: 0, yield_pending: false }),
    {
        CompletionLog { last_completed: u64::MAX, completions: 0, io: 0, yield_pending: false }
    }

    /// Notes that the call numbered `number` completed.
    pub fn record(&mut self, number: u64)
        ensures
            *final(self) == (CompletionLog {
                last_completed: number,
                completions: old(self).completions.wrapping_add(1),
                ..*old(self)
            }),
    {
        self.last_completed = number;
        self.completions = self.completions.wrapping_add(1);
    }

    /// Sets the completion bits `flags`.
    pub fn mark(&mut self, flags: u64)
        ensures
            *final(self) == (CompletionLog { io: old(self).io | flags, ..*old(self) }),
    {
        self.io = self.io | flags;
    }

    /// Asks for a yield on the way out of the call.
    pub fn request_yield(&mut self)
        ensures
            *final(self) == (CompletionLog { yield_pending: true, ..*old(self) }),
    {
        self.yield_pending = true;
    }

    /// Whether a yield was due; it is then no longer due.
    pub fn service_pending(&mut self) -> (pending: bool)
        ensures
            pending == old(self).yield_pending,
            *final(self) == (CompletionLog { yield_pending: false, ..*old(self) }),
    {
        let pending = self.yield_pending;
        self.yield_pending = false;
        pending
    }

    /// The last completed call was `number`.
    pub fn last_completed(&self, number: Number) -> (same: bool)
        ensures
            same == (self.last_completed == spec_code(number)),
    {
        self.last_completed == number.code()
    }

    fn all_set(&self, flags: u64) -> (set: bool)
        ensures
            set == (self.io & flags == flags),
    {
        self.io & flags == flags
    }

    /// A user program wrote to the console, opened, read and closed a file.
    pub fn user_io_verified(&self) -> (verified: bool)
        ensures
            verified == (self.io & 0xf == 0xf),
    {
        self.all_set(0xf)
    }

    /// A user program used standard input and standard error.
    pub fn user_standard_streams_verified(&self) -> (verified: bool)
        ensures
            verified == (self.io & 0x1800 == 0x1800),
    {
        self.all_set(0x1800)
    }

    /// A user program mapped and unmapped memory.
    pub fn user_memory_verified(&self) -> (verified: bool)
        ensures
            verified == (self.io & 0x30 == 0x30),
    {
        self.all_set(0x30)
    }

    /// A user program asked for its user and group.
    pub fn user_identity_verified(&self) -> (verified: bool)
        ensures
            verified == (self.io & 0x180 == 0x180),
    {
        self.all_set(0x180)
    }

    /// A user program ran another.
    pub fn user_exec_verified(&self) -> (verified: bool)
        ensures
            verified == (self.io & 0x200 == 0x200),
    {
        self.all_set(0x200)
    }

    /// A user program forked.
    pub fn user_fork_verified(&self) -> (verified: bool)
        ensures
            verified == (self.io & 0x400 == 0x400),
    {
        self.all_set(0x400)
    }
}

/// A path length a system call accepts.
pub fn path_length_valid(length: u64) -> (valid: bool)
    ensures
        valid == (1 <= length <= MAX_PATH_SIZE),
{
    length != 0 && length <= 128
}

/// The result of `stat`: the kind (one for a directory) in the low byte, the low
/// 24 bits of the size above it, and the writable bit at bit 40.
pub open spec fn spec_pack_stat(directory: bool, size: u64, writable: bool) -> int {
    (if directory { 1int } else { 0int }) + (size % 0x100_0000) * 0x100 + (if writable { 0x100_0000_0000int } else { 0int })
}

pub fn pack_stat(directory: bool, size: u64, writable: bool) -> (packed: u64)
    ensures
        packed == spec_pack_stat(directory, size, writable),
{
    let kind: u64 = if directory { 1 } else { 0 };
    let bit: u64 = if writable { 0x100_0000_0000 } else { 0 };
    kind + (size % 0x100_0000) * 0x100 + bit
}

/// The result of `readdir`: the name length, and the kind (one for a directory) in
/// the next byte.
pub fn pack_readdir(name_length: u8, directory: bool) -> (packed: u64)
    ensures
        packed == name_length + if directory { 0x100int } else { 0int },
{
    name_length as u64 + if directory { 0x100 } else { 0 }
}

/// The path length (low 16 bits) and entry index (the rest) of `readdir`'s second
/// argument.
pub fn unpack_readdir_argument(argument: u64) -> (parts: (u64, u64))
    ensures
        parts == ((argument % 0x10000) as u64, (argument / 0x10000) as u64),
{
    (argument % 0x10000, argument / 0x10000)
}

/// The source and target path lengths of `rename`'s second argument: its low two
/// 16-bit halves.
pub fn unpack_rename_lengths(argument: u64) -> (lengths: (u64, u64))
    ensures
        lengths == ((argument % 0x10000) as u64, (argument / 0x10000 % 0x10000) as u64),
{
    (argument % 0x10000, argument / 0x10000 % 0x10000)
}

/// The result of `pipe`: the read descriptor in the low 32 bits, the write
/// descriptor above.
pub fn pack_pipe(read: u64, write: u64) -> (packed: u64)
    requires
        read < 0x1_0000_0000,
        write < 0x1_0000_0000,
    ensures
        packed == read + write * 0x1_0000_0000,
{
    read + write * 0x1_0000_0000
}

/// `mmap` accepts no flag but the writable bit.
pub fn mmap_flags_valid(flags: u64) -> (valid: bool)
    ensures
        valid == (flags <= 1),
{
    flags <= 1
}

/// The console accepts writes to standard output and standard error.
pub fn console_descriptor(descriptor: u64) -> (valid: bool)
    ensures
        valid == (descriptor == 1 || descriptor == 2),
{
    descriptor == 1 || descriptor == 2
}

} // verus!
