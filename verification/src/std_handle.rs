//! Standard handles of an actor and their file descriptor numbers.

use vstd::prelude::*;

use crate::text::str_eq;

verus! {

/// Standard handles for I/O streams.
#[derive(Debug, Clone, Copy, PartialEq, Eq, Structural, Hash)]
pub enum StdHandle {
    Stdin,
    Stdout,
    Log,
    Env,
    Metrics,
    Trace,
    /// Sentinel value for counting. Must always be last.
    _Count,
}

/// Number of standard handles (the value of the `_Count` sentinel).
pub const STD_HANDLE_COUNT: isize = 6;

/// The file descriptor number of a standard handle.
pub open spec fn std_fd(h: StdHandle) -> int {
    match h {
        StdHandle::Stdin => 0,
        StdHandle::Stdout => 1,
        StdHandle::Log => 2,
        StdHandle::Env => 3,
        StdHandle::Metrics => 4,
        StdHandle::Trace => 5,
        StdHandle::_Count => 6,
    }
}

/// The standard handle with the given name, if any.
pub open spec fn std_handle_named(name: Seq<char>) -> Option<StdHandle> {
    if name == "stdin"@ {
        Some(StdHandle::Stdin)
    } else if name == "stdout"@ {
        Some(StdHandle::Stdout)
    } else if name == "stderr"@ || name == "log"@ {
        Some(StdHandle::Log)
    } else if name == "env"@ {
        Some(StdHandle::Env)
    } else if name == "metrics"@ {
        Some(StdHandle::Metrics)
    } else if name == "trace"@ {
        Some(StdHandle::Trace)
    } else {
        None
    }
}

impl StdHandle {
    /// The file descriptor number of this handle.
    pub fn as_fd(self) -> (r: isize)
        ensures
            r == std_fd(self),
    {
        match self {
            StdHandle::Stdin => 0,
            StdHandle::Stdout => 1,
            StdHandle::Log => 2,
            StdHandle::Env => 3,
            StdHandle::Metrics => 4,
            StdHandle::Trace => 5,
            StdHandle::_Count => 6,
        }
    }

    /// Converts a file descriptor to a standard handle; the sentinel is never returned.
    pub fn try_from_fd(value: isize) -> (r: Result<StdHandle, ()>)
        ensures
            r is Ok <==> 0 <= value < STD_HANDLE_COUNT,
            r matches Ok(h) ==> std_fd(h) == value && h != StdHandle::_Count,
    {
        if value == 0 {
            Ok(StdHandle::Stdin)
        } else if value == 1 {
            Ok(StdHandle::Stdout)
        } else if value == 2 {
            Ok(StdHandle::Log)
        } else if value == 3 {
            Ok(StdHandle::Env)
        } else if value == 4 {
            Ok(StdHandle::Metrics)
        } else if value == 5 {
            Ok(StdHandle::Trace)
        } else {
            Err(())
        }
    }

    /// Converts a stream name (`stdin`, `stdout`, `stderr` or `log`, `env`, `metrics`,
    /// `trace`) to a standard handle.
    pub fn try_from_name(s: &str) -> (r: Result<StdHandle, ()>)
        ensures
            r matches Ok(h) ==> std_handle_named(s@) == Some(h),
            r is Err ==> std_handle_named(s@) is None,
    {
        if str_eq(s, "stdin") {
            Ok(StdHandle::Stdin)
        } else if str_eq(s, "stdout") {
            Ok(StdHandle::Stdout)
        } else if str_eq(s, "stderr") || str_eq(s, "log") {
            Ok(StdHandle::Log)
        } else if str_eq(s, "env") {
            Ok(StdHandle::Env)
        } else if str_eq(s, "metrics") {
            Ok(StdHandle::Metrics)
        } else if str_eq(s, "trace") {
            Ok(StdHandle::Trace)
        } else {
            Err(())
        }
    }
}

/// Law: converting a real standard handle to its descriptor and back gives the handle.
pub proof fn lemma_std_fd_round_trip(h: StdHandle)
    requires
        h != StdHandle::_Count,
    ensures
        0 <= std_fd(h) < STD_HANDLE_COUNT,
        forall|g: StdHandle| std_fd(g) == std_fd(h) ==> g == h,
{
}

} // verus!
