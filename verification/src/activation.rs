//! Socket activation: whether the process was handed a listening socket.
use vstd::prelude::*;
use crate::text::{parse_u32, parse_u32_spec, to_chars};

verus! {

/// What `LISTEN_PID` and `LISTEN_FDS` must hold for the process `our_pid`
/// to take the first handed-over descriptor: its own pid, and at least one
/// descriptor, both as `u32` decimal text.
pub open spec fn take_fd_spec(listen_pid: Option<Seq<char>>, listen_fds: Option<Seq<char>>, our_pid: u32) -> bool {
    &&& listen_pid matches Some(p) && parse_u32_spec(p) == Some(our_pid)
    &&& listen_fds matches Some(f) && parse_u32_spec(f) matches Some(n) && n >= 1
}

pub open spec fn opt_view(o: Option<&str>) -> Option<Seq<char>> {
    match o {
        Some(s) => Some(s@),
        None => None,
    }
}

/// `str::parse::<u32>` on a whole text.
fn parse_u32_text(s: &str) -> (r: Option<u32>)
    ensures
        r == parse_u32_spec(s@),
{
    let v = to_chars(s);
    proof {
        assert(v@.subrange(0, v@.len() as int) =~= s@);
    }
    parse_u32(v.as_slice(), 0, v.len())
}

/// Whether this process, `our_pid`, was started by socket activation with
/// a descriptor waiting, given the values of `LISTEN_PID` and `LISTEN_FDS`.
pub fn should_take_fd(listen_pid: Option<&str>, listen_fds: Option<&str>, our_pid: u32) -> (r: bool)
    ensures
        r == take_fd_spec(opt_view(listen_pid), opt_view(listen_fds), our_pid),
{
    let pid_matches = match listen_pid {
        Some(p) => match parse_u32_text(p) {
            Some(n) => n == our_pid,
            None => false,
        },
        None => false,
    };
    let has_fds = match listen_fds {
        Some(f) => match parse_u32_text(f) {
            Some(n) => n >= 1,
            None => false,
        },
        None => false,
    };
    pid_matches && has_fds
}

} // verus!
